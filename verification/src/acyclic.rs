//! Whether the edges of a graph and the paths inside its nodes that leave
//! timestamps as they are form a cycle.
use vstd::prelude::*;
use crate::order::{PartialOrder, PathSummary, Timestamp, Value};
use crate::antichain::Antichain;
use crate::location::{Location, Port, Source, Target};
use crate::graph::{
    Nodes, Edges, shaped, sized, is_port, edges_closed, nodes_view, edges_view, node_view,
};

verus! {

/// A timestamp passes from `u` to `v` as it is: along an edge from the output
/// port `u` to the input port `v`, or inside a node along the summary `unit`
/// from the input port `u` to the output port `v`.
pub open spec fn arc<S>(
    nodes: Seq<Seq<Seq<Seq<S>>>>,
    edges: Seq<Seq<Seq<Target>>>,
    unit: S,
    u: Location,
    v: Location,
) -> bool {
    match (u.port, v.port) {
        (Port::Source(p), Port::Target(q)) => is_port(nodes, edges, u)
            && edges[u.node as int][p as int].contains(Target { node: v.node, port: q }),
        (Port::Target(i), Port::Source(j)) => u.node == v.node && is_port(nodes, edges, u) && j
            < nodes[u.node as int][i as int].len()
            && nodes[u.node as int][i as int][j as int].contains(unit),
        _ => false,
    }
}

/// Each location of `path` passes timestamps to the next as they are.
pub open spec fn is_walk<S>(
    nodes: Seq<Seq<Seq<Seq<S>>>>,
    edges: Seq<Seq<Seq<Target>>>,
    unit: S,
    path: Seq<Location>,
) -> bool {
    forall|k: int| 0 <= k < path.len() - 1 ==> arc(nodes, edges, unit, #[trigger] path[k], path[k + 1])
}

/// Some location passes timestamps back to itself as they are, along one hop
/// or more.
pub open spec fn has_cycle<S>(nodes: Seq<Seq<Seq<Seq<S>>>>, edges: Seq<Seq<Seq<Target>>>, unit: S)
    -> bool {
    exists|path: Seq<Location>|
        path.len() >= 2 && #[trigger] is_walk(nodes, edges, unit, path) && path[0] == path.last()
}

/// How many of `targets[..upto]` are `t`.
pub open spec fn hits(targets: Seq<Target>, upto: int, t: Target) -> nat
    decreases upto,
{
    if upto <= 0 {
        0
    } else {
        hits(targets, upto - 1, t) + if targets[upto - 1] == t {
            1nat
        } else {
            0nat
        }
    }
}

/// How many of `summaries[..upto]` are `unit`.
pub open spec fn units<S>(summaries: Seq<S>, upto: int, unit: S) -> nat
    decreases upto,
{
    if upto <= 0 {
        0
    } else {
        units(summaries, upto - 1, unit) + if summaries[upto - 1] == unit {
            1nat
        } else {
            0nat
        }
    }
}

/// How many edges lead to `t` from the output ports below `p` of the node
/// `node` that are not in `gone`.
pub open spec fn row_into(
    ports: Seq<Seq<Target>>,
    gone: Set<Location>,
    node: int,
    t: Target,
    p: int,
) -> nat
    decreases p,
{
    if p <= 0 {
        0
    } else {
        row_into(ports, gone, node, t, p - 1) + if gone.contains(
            Location { node: node as usize, port: Port::Source((p - 1) as usize) },
        ) {
            0nat
        } else {
            hits(ports[p - 1], ports[p - 1].len() as int, t)
        }
    }
}

/// How many edges lead to `t` from the output ports of the nodes below `n`
/// that are not in `gone`.
pub open spec fn all_into(edges: Seq<Seq<Seq<Target>>>, gone: Set<Location>, t: Target, n: int) -> nat
    decreases n,
{
    if n <= 0 {
        0
    } else {
        all_into(edges, gone, t, n - 1) + row_into(
            edges[n - 1],
            gone,
            n - 1,
            t,
            edges[n - 1].len() as int,
        )
    }
}

/// How many summaries `unit` lead to the output port `j` of the node `node`
/// from its input ports below `i` that are not in `gone`.
pub open spec fn into_source<S>(
    rows: Seq<Seq<Seq<S>>>,
    gone: Set<Location>,
    node: int,
    j: int,
    i: int,
    unit: S,
) -> nat
    decreases i,
{
    if i <= 0 {
        0
    } else {
        into_source(rows, gone, node, j, i - 1, unit) + if gone.contains(
            Location { node: node as usize, port: Port::Target((i - 1) as usize) },
        ) {
            0nat
        } else {
            units(rows[i - 1][j], rows[i - 1][j].len() as int, unit)
        }
    }
}

/// How many arcs lead to `loc` from locations that are not in `gone`.
pub open spec fn in_degree<S>(
    nodes: Seq<Seq<Seq<Seq<S>>>>,
    edges: Seq<Seq<Seq<Target>>>,
    unit: S,
    gone: Set<Location>,
    loc: Location,
) -> nat {
    match loc.port {
        Port::Target(q) => all_into(
            edges,
            gone,
            Target { node: loc.node, port: q },
            edges.len() as int,
        ),
        Port::Source(j) => into_source(
            nodes[loc.node as int],
            gone,
            loc.node as int,
            j as int,
            nodes[loc.node as int].len() as int,
            unit,
        ),
    }
}

/// `hits` counts what the sequence contains.
pub proof fn lemma_hits(targets: Seq<Target>, upto: int, t: Target)
    requires
        0 <= upto <= targets.len(),
    ensures
        hits(targets, upto, t) <= upto,
        hits(targets, upto, t) > 0 <==> exists|k: int| 0 <= k < upto && targets[k] == t,
        upto == targets.len() ==> (hits(targets, upto, t) > 0 <==> targets.contains(t)),
    decreases upto,
{
    if upto > 0 {
        lemma_hits(targets, upto - 1, t);
        if hits(targets, upto, t) > 0 {
            if targets[upto - 1] == t {
                assert(0 <= upto - 1 < upto && targets[upto - 1] == t);
            } else {
                let k = choose|k: int| 0 <= k < upto - 1 && targets[k] == t;
                assert(0 <= k < upto && targets[k] == t);
            }
        }
    }
}

/// `hits` does not fall as more of the sequence is counted.
pub proof fn lemma_hits_grow(targets: Seq<Target>, a: int, b: int, t: Target)
    requires
        0 <= a <= b,
    ensures
        hits(targets, a, t) <= hits(targets, b, t),
    decreases b - a,
{
    if a < b {
        lemma_hits_grow(targets, a, b - 1, t);
    }
}

/// `units` counts what the sequence contains.
pub proof fn lemma_units<S>(summaries: Seq<S>, upto: int, unit: S)
    requires
        0 <= upto <= summaries.len(),
    ensures
        units(summaries, upto, unit) <= upto,
        units(summaries, upto, unit) > 0 <==> exists|k: int| 0 <= k < upto && summaries[k] == unit,
        upto == summaries.len() ==> (units(summaries, upto, unit) > 0 <==> summaries.contains(unit)),
    decreases upto,
{
    if upto > 0 {
        lemma_units(summaries, upto - 1, unit);
        if units(summaries, upto, unit) > 0 {
            if summaries[upto - 1] == unit {
                assert(0 <= upto - 1 < upto && summaries[upto - 1] == unit);
            } else {
                let k = choose|k: int| 0 <= k < upto - 1 && summaries[k] == unit;
                assert(0 <= k < upto && summaries[k] == unit);
            }
        }
    }
}

/// `units` does not fall as more of the sequence is counted.
pub proof fn lemma_units_grow<S>(summaries: Seq<S>, a: int, b: int, unit: S)
    requires
        0 <= a <= b,
    ensures
        units(summaries, a, unit) <= units(summaries, b, unit),
    decreases b - a,
{
    if a < b {
        lemma_units_grow(summaries, a, b - 1, unit);
    }
}

/// The output port `p` of the node `n`.
pub open spec fn source_at(n: int, p: int) -> Location {
    Location { node: n as usize, port: Port::Source(p as usize) }
}

/// The input port `i` of the node `n`.
pub open spec fn target_at(n: int, i: int) -> Location {
    Location { node: n as usize, port: Port::Target(i as usize) }
}

/// Taking an output port out takes its edges out of the count of a row.
pub proof fn lemma_row_without_source(
    ports: Seq<Seq<Target>>,
    gone: Set<Location>,
    node: int,
    t: Target,
    p: int,
    n0: int,
    q0: int,
)
    requires
        0 <= p <= ports.len() <= usize::MAX,
        0 <= node <= usize::MAX,
        0 <= n0 <= usize::MAX,
        0 <= q0 <= usize::MAX,
        !gone.contains(source_at(n0, q0)),
    ensures
        row_into(ports, gone.insert(source_at(n0, q0)), node, t, p) + (if node == n0 && q0 < p {
            hits(ports[q0], ports[q0].len() as int, t)
        } else {
            0nat
        }) == row_into(ports, gone, node, t, p),
    decreases p,
{
    if p > 0 {
        lemma_row_without_source(ports, gone, node, t, p - 1, n0, q0);
        assert(source_at(node, p - 1) == source_at(n0, q0) <==> node == n0 && p - 1 == q0);
    }
}

/// Taking an output port out takes its edges out of the count.
pub proof fn lemma_all_without_source(
    edges: Seq<Seq<Seq<Target>>>,
    gone: Set<Location>,
    t: Target,
    n: int,
    n0: int,
    q0: int,
)
    requires
        0 <= n <= edges.len() <= usize::MAX,
        forall|m: int| 0 <= m < edges.len() ==> (#[trigger] edges[m]).len() <= usize::MAX,
        0 <= n0 < edges.len(),
        0 <= q0 < edges[n0].len(),
        !gone.contains(source_at(n0, q0)),
    ensures
        all_into(edges, gone.insert(source_at(n0, q0)), t, n) + (if n0 < n {
            hits(edges[n0][q0], edges[n0][q0].len() as int, t)
        } else {
            0nat
        }) == all_into(edges, gone, t, n),
    decreases n,
{
    if n > 0 {
        lemma_all_without_source(edges, gone, t, n - 1, n0, q0);
        lemma_row_without_source(
            edges[n - 1],
            gone,
            n - 1,
            t,
            edges[n - 1].len() as int,
            n0,
            q0,
        );
    }
}

/// The count of the edges into an input port looks at output ports only.
pub proof fn lemma_all_into_frame(
    edges: Seq<Seq<Seq<Target>>>,
    g1: Set<Location>,
    g2: Set<Location>,
    t: Target,
    n: int,
)
    requires
        forall|l: Location| l.port is Source ==> (g1.contains(l) <==> g2.contains(l)),
    ensures
        all_into(edges, g1, t, n) == all_into(edges, g2, t, n),
    decreases n,
{
    if n > 0 {
        lemma_all_into_frame(edges, g1, g2, t, n - 1);
        lemma_row_into_frame(edges[n - 1], g1, g2, n - 1, t, edges[n - 1].len() as int);
    }
}

/// The count of the edges of a row looks at output ports only.
pub proof fn lemma_row_into_frame(
    ports: Seq<Seq<Target>>,
    g1: Set<Location>,
    g2: Set<Location>,
    node: int,
    t: Target,
    p: int,
)
    requires
        forall|l: Location| l.port is Source ==> (g1.contains(l) <==> g2.contains(l)),
    ensures
        row_into(ports, g1, node, t, p) == row_into(ports, g2, node, t, p),
    decreases p,
{
    if p > 0 {
        lemma_row_into_frame(ports, g1, g2, node, t, p - 1);
    }
}

/// Taking an input port out takes its summaries out of the count.
pub proof fn lemma_source_without_target<S>(
    rows: Seq<Seq<Seq<S>>>,
    gone: Set<Location>,
    node: int,
    j: int,
    i: int,
    n0: int,
    i0: int,
    unit: S,
)
    requires
        0 <= i <= rows.len() <= usize::MAX,
        0 <= node <= usize::MAX,
        0 <= n0 <= usize::MAX,
        0 <= i0 <= usize::MAX,
        !gone.contains(target_at(n0, i0)),
    ensures
        into_source(rows, gone.insert(target_at(n0, i0)), node, j, i, unit) + (if node == n0 && i0
            < i {
            units(rows[i0][j], rows[i0][j].len() as int, unit)
        } else {
            0nat
        }) == into_source(rows, gone, node, j, i, unit),
    decreases i,
{
    if i > 0 {
        lemma_source_without_target(rows, gone, node, j, i - 1, n0, i0, unit);
        assert(target_at(node, i - 1) == target_at(n0, i0) <==> node == n0 && i - 1 == i0);
    }
}

/// The count of the summaries into an output port looks at input ports only.
pub proof fn lemma_into_source_frame<S>(
    rows: Seq<Seq<Seq<S>>>,
    g1: Set<Location>,
    g2: Set<Location>,
    node: int,
    j: int,
    i: int,
    unit: S,
)
    requires
        forall|l: Location| l.port is Target ==> (g1.contains(l) <==> g2.contains(l)),
    ensures
        into_source(rows, g1, node, j, i, unit) == into_source(rows, g2, node, j, i, unit),
    decreases i,
{
    if i > 0 {
        lemma_into_source_frame(rows, g1, g2, node, j, i - 1, unit);
    }
}

/// A row counts nothing exactly where each of its edges to `t` is from a port
/// that is gone.
pub proof fn lemma_row_zero(ports: Seq<Seq<Target>>, gone: Set<Location>, node: int, t: Target, p: int)
    requires
        0 <= p <= ports.len(),
    ensures
        row_into(ports, gone, node, t, p) == 0 <==> forall|q2: int|
            0 <= q2 < p && (#[trigger] ports[q2]).contains(t) ==> gone.contains(source_at(node, q2)),
    decreases p,
{
    if p > 0 {
        lemma_row_zero(ports, gone, node, t, p - 1);
        lemma_hits(ports[p - 1], ports[p - 1].len() as int, t);
        if row_into(ports, gone, node, t, p) == 0 {
            assert forall|q2: int| 0 <= q2 < p && (#[trigger] ports[q2]).contains(t) implies gone.contains(
                source_at(node, q2),
            ) by {
                if q2 == p - 1 {
                }
            }
        } else {
            if row_into(ports, gone, node, t, p - 1) == 0 {
                assert(ports[p - 1].contains(t) && !gone.contains(source_at(node, p - 1)));
            } else {
                let q2 = choose|q2: int|
                    0 <= q2 < p - 1 && (#[trigger] ports[q2]).contains(t) && !gone.contains(
                        source_at(node, q2),
                    );
                assert(0 <= q2 < p && ports[q2].contains(t) && !gone.contains(source_at(node, q2)));
            }
        }
    }
}

/// The count is nothing exactly where each edge to `t` is from a port that is
/// gone.
pub proof fn lemma_all_zero(edges: Seq<Seq<Seq<Target>>>, gone: Set<Location>, t: Target, n: int)
    requires
        0 <= n <= edges.len(),
    ensures
        all_into(edges, gone, t, n) == 0 <==> forall|n2: int, q2: int|
            0 <= n2 < n && 0 <= q2 < edges[n2].len() && (#[trigger] edges[n2][q2]).contains(t)
                ==> gone.contains(source_at(n2, q2)),
    decreases n,
{
    if n > 0 {
        lemma_all_zero(edges, gone, t, n - 1);
        lemma_row_zero(edges[n - 1], gone, n - 1, t, edges[n - 1].len() as int);
        if all_into(edges, gone, t, n) == 0 {
            assert forall|n2: int, q2: int|
                0 <= n2 < n && 0 <= q2 < edges[n2].len() && (#[trigger] edges[n2][q2]).contains(
                    t,
                ) implies gone.contains(source_at(n2, q2)) by {
                if n2 == n - 1 {
                }
            }
        } else {
            if all_into(edges, gone, t, n - 1) == 0 {
                let q2 = choose|q2: int|
                    0 <= q2 < edges[n - 1].len() && (#[trigger] edges[n - 1][q2]).contains(t)
                        && !gone.contains(source_at(n - 1, q2));
                assert(0 <= n - 1 < n && edges[n - 1][q2].contains(t) && !gone.contains(
                    source_at(n - 1, q2),
                ));
            } else {
                let (n2, q2) = choose|n2: int, q2: int|
                    0 <= n2 < n - 1 && 0 <= q2 < edges[n2].len() && (#[trigger] edges[n2][q2]).contains(
                        t,
                    ) && !gone.contains(source_at(n2, q2));
                assert(0 <= n2 < n && edges[n2][q2].contains(t) && !gone.contains(source_at(n2, q2)));
            }
        }
    }
}

/// The count is nothing exactly where each summary `unit` to the output port
/// is from an input port that is gone.
pub proof fn lemma_source_zero<S>(
    rows: Seq<Seq<Seq<S>>>,
    gone: Set<Location>,
    node: int,
    j: int,
    i: int,
    unit: S,
)
    requires
        0 <= i <= rows.len(),
    ensures
        into_source(rows, gone, node, j, i, unit) == 0 <==> forall|i2: int|
            0 <= i2 < i && (#[trigger] rows[i2])[j].contains(unit) ==> gone.contains(
                target_at(node, i2),
            ),
    decreases i,
{
    if i > 0 {
        lemma_source_zero(rows, gone, node, j, i - 1, unit);
        lemma_units(rows[i - 1][j], rows[i - 1][j].len() as int, unit);
        if into_source(rows, gone, node, j, i, unit) == 0 {
            assert forall|i2: int| 0 <= i2 < i && (#[trigger] rows[i2])[j].contains(unit) implies gone.contains(
                target_at(node, i2),
            ) by {
                if i2 == i - 1 {
                }
            }
        } else {
            if into_source(rows, gone, node, j, i - 1, unit) == 0 {
                assert(rows[i - 1][j].contains(unit) && !gone.contains(target_at(node, i - 1)));
            } else {
                let i2 = choose|i2: int|
                    0 <= i2 < i - 1 && (#[trigger] rows[i2])[j].contains(unit) && !gone.contains(
                        target_at(node, i2),
                    );
                assert(0 <= i2 < i && rows[i2][j].contains(unit) && !gone.contains(
                    target_at(node, i2),
                ));
            }
        }
    }
}

/// No arc leads to a port from a location that is not gone exactly where the
/// count of such arcs is nothing.
pub proof fn lemma_degree_zero<S>(
    nodes: Seq<Seq<Seq<Seq<S>>>>,
    edges: Seq<Seq<Seq<Target>>>,
    unit: S,
    gone: Set<Location>,
    v: Location,
)
    requires
        shaped(nodes, edges),
        sized(nodes, edges),
        is_port(nodes, edges, v),
    ensures
        in_degree(nodes, edges, unit, gone, v) == 0 <==> forall|u: Location|
            arc(nodes, edges, unit, u, v) ==> gone.contains(u),
{
    match v.port {
        Port::Target(q) => {
            let t = Target { node: v.node, port: q };
            lemma_all_zero(edges, gone, t, edges.len() as int);
            if in_degree(nodes, edges, unit, gone, v) == 0 {
                assert forall|u: Location| arc(nodes, edges, unit, u, v) implies gone.contains(u) by {
                    match u.port {
                        Port::Source(p) => {
                            assert(edges[u.node as int][p as int].contains(t));
                            assert(source_at(u.node as int, p as int) == u);
                        },
                        Port::Target(_) => {},
                    }
                }
            }
            if forall|u: Location| arc(nodes, edges, unit, u, v) ==> gone.contains(u) {
                assert forall|n2: int, q2: int|
                    0 <= n2 < edges.len() && 0 <= q2 < edges[n2].len() && (
                    #[trigger] edges[n2][q2]).contains(t) implies gone.contains(source_at(n2, q2)) by {
                    let u = source_at(n2, q2);
                    assert(is_port(nodes, edges, u));
                    assert(arc(nodes, edges, unit, u, v));
                }
            }
        },
        Port::Source(j) => {
            let rows = nodes[v.node as int];
            lemma_source_zero(rows, gone, v.node as int, j as int, rows.len() as int, unit);
            if in_degree(nodes, edges, unit, gone, v) == 0 {
                assert forall|u: Location| arc(nodes, edges, unit, u, v) implies gone.contains(u) by {
                    match u.port {
                        Port::Target(i) => {
                            assert(rows[i as int][j as int].contains(unit));
                            assert(target_at(v.node as int, i as int) == u);
                        },
                        Port::Source(_) => {},
                    }
                }
            }
            if forall|u: Location| arc(nodes, edges, unit, u, v) ==> gone.contains(u) {
                assert forall|i2: int|
                    0 <= i2 < rows.len() && (#[trigger] rows[i2])[j as int].contains(
                        unit,
                    ) implies gone.contains(target_at(v.node as int, i2)) by {
                    let u = target_at(v.node as int, i2);
                    assert(is_port(nodes, edges, u));
                    assert(nodes[v.node as int][i2].len() == edges[v.node as int].len());
                    assert(arc(nodes, edges, unit, u, v));
                }
            }
        },
    }
}

/// An arc leads from a port to a port.
pub proof fn lemma_arc_ports<S>(
    nodes: Seq<Seq<Seq<Seq<S>>>>,
    edges: Seq<Seq<Seq<Target>>>,
    unit: S,
    u: Location,
    v: Location,
)
    requires
        shaped(nodes, edges),
        edges_closed(nodes, edges),
        arc(nodes, edges, unit, u, v),
    ensures
        is_port(nodes, edges, u),
        is_port(nodes, edges, v),
{
    match (u.port, v.port) {
        (Port::Source(p), Port::Target(q)) => {
            let t = Target { node: v.node, port: q };
            let targets = edges[u.node as int][p as int];
            let k = choose|k: int| 0 <= k < targets.len() && targets[k] == t;
            assert(is_port(nodes, edges, Location::of_target(edges[u.node as int][p as int][k])));
        },
        (Port::Target(i), Port::Source(j)) => {
            assert(nodes[u.node as int][i as int].len() == edges[u.node as int].len());
        },
        _ => {},
    }
}

/// `u` stands in `order` before the index `idx`.
pub open spec fn earlier(order: Seq<Location>, u: Location, idx: int) -> bool {
    exists|a: int| 0 <= a < idx && order[a] == u
}

/// Every location from which an arc leads to a location of `order` stands in
/// `order` before it.
pub open spec fn sorted_by_arcs<S>(
    nodes: Seq<Seq<Seq<Seq<S>>>>,
    edges: Seq<Seq<Seq<Target>>>,
    unit: S,
    order: Seq<Location>,
) -> bool {
    forall|idx: int, u: Location|
        0 <= idx < order.len() && arc(nodes, edges, unit, u, order[idx]) ==> #[trigger] earlier(
            order,
            u,
            idx,
        )
}

/// Along a walk the place in an order sorted by arcs rises.
proof fn lemma_climb<S>(
    nodes: Seq<Seq<Seq<Seq<S>>>>,
    edges: Seq<Seq<Seq<Target>>>,
    unit: S,
    order: Seq<Location>,
    path: Seq<Location>,
    k: int,
)
    requires
        shaped(nodes, edges),
        edges_closed(nodes, edges),
        order.no_duplicates(),
        forall|l: Location| is_port(nodes, edges, l) ==> order.contains(l),
        sorted_by_arcs(nodes, edges, unit, order),
        is_walk(nodes, edges, unit, path),
        0 <= k < path.len(),
        path.len() >= 2,
    ensures
        order.contains(path[k]),
        order.index_of(path[k]) >= order.index_of(path[0]) + k,
    decreases k,
{
    if k == 0 {
        lemma_arc_ports(nodes, edges, unit, path[0], path[1]);
    } else {
        lemma_climb(nodes, edges, unit, order, path, k - 1);
        assert(arc(nodes, edges, unit, path[k - 1], path[k - 1 + 1]));
        lemma_arc_ports(nodes, edges, unit, path[k - 1], path[k]);
        assert(order.contains(path[k]));
        let idx = order.index_of(path[k]);
        assert(0 <= idx < order.len() && order[idx] == path[k]);
        assert(earlier(order, path[k - 1], idx));
        let a = choose|a: int| 0 <= a < idx && order[a] == path[k - 1];
        let b = order.index_of(path[k - 1]);
        assert(0 <= b < order.len() && order[b] == path[k - 1]);
        assert(a == b);
    }
}

/// A graph whose ports can all be put in an order sorted by arcs has no cycle.
pub proof fn lemma_order_no_cycle<S>(
    nodes: Seq<Seq<Seq<Seq<S>>>>,
    edges: Seq<Seq<Seq<Target>>>,
    unit: S,
    order: Seq<Location>,
)
    requires
        shaped(nodes, edges),
        edges_closed(nodes, edges),
        order.no_duplicates(),
        forall|l: Location| is_port(nodes, edges, l) ==> order.contains(l),
        sorted_by_arcs(nodes, edges, unit, order),
    ensures
        !has_cycle(nodes, edges, unit),
{
    if has_cycle(nodes, edges, unit) {
        let path = choose|path: Seq<Location>|
            path.len() >= 2 && #[trigger] is_walk(nodes, edges, unit, path) && path[0] == path.last();
        lemma_climb(nodes, edges, unit, order, path, path.len() - 1);
        assert(false);
    }
}

/// The ports of one node.
pub open spec fn node_ports(n: int, inputs: nat, outputs: nat) -> Seq<Location> {
    Seq::new(inputs, |i: int| target_at(n, i)) + Seq::new(outputs, |j: int| source_at(n, j))
}

/// The ports of the nodes below `n`.
pub open spec fn port_list<S>(nodes: Seq<Seq<Seq<Seq<S>>>>, edges: Seq<Seq<Seq<Target>>>, n: int)
    -> Seq<Location>
    decreases n,
{
    if n <= 0 {
        Seq::empty()
    } else {
        port_list(nodes, edges, n - 1) + node_ports(n - 1, nodes[n - 1].len(), edges[n - 1].len())
    }
}

/// The list of ports holds every port.
pub proof fn lemma_port_list<S>(
    nodes: Seq<Seq<Seq<Seq<S>>>>,
    edges: Seq<Seq<Seq<Target>>>,
    n: int,
    l: Location,
)
    requires
        is_port(nodes, edges, l),
        l.node < n <= nodes.len(),
    ensures
        port_list(nodes, edges, n).contains(l),
    decreases n,
{
    let before = port_list(nodes, edges, n - 1);
    let here = node_ports(n - 1, nodes[n - 1].len(), edges[n - 1].len());
    if l.node == n - 1 {
        match l.port {
            Port::Target(i) => {
                assert(here[i as int] == l);
                assert((before + here)[before.len() + i] == l);
            },
            Port::Source(j) => {
                assert(here[nodes[n - 1].len() + j] == l);
                assert((before + here)[before.len() + nodes[n - 1].len() + j] == l);
            },
        }
    } else {
        lemma_port_list(nodes, edges, n - 1, l);
        let a = before.index_of(l);
        assert((before + here)[a] == l);
    }
}

/// The list of ports holds each port once, and ports only.
pub proof fn lemma_port_list_distinct<S>(
    nodes: Seq<Seq<Seq<Seq<S>>>>,
    edges: Seq<Seq<Seq<Target>>>,
    n: int,
)
    requires
        shaped(nodes, edges),
        sized(nodes, edges),
        0 <= n <= nodes.len(),
    ensures
        port_list(nodes, edges, n).no_duplicates(),
        forall|a: int|
            0 <= a < port_list(nodes, edges, n).len() ==> (#[trigger] port_list(nodes, edges, n)[a]).node
                < n && is_port(nodes, edges, port_list(nodes, edges, n)[a]),
    decreases n,
{
    if n > 0 {
        lemma_port_list_distinct(nodes, edges, n - 1);
        let before = port_list(nodes, edges, n - 1);
        let inputs = nodes[n - 1].len();
        let outputs = edges[n - 1].len();
        let here = node_ports(n - 1, inputs, outputs);
        assert forall|a: int| 0 <= a < here.len() implies (#[trigger] here[a]).node == n - 1 && is_port(
            nodes,
            edges,
            here[a],
        ) && here[a] == (if a < inputs {
            target_at(n - 1, a)
        } else {
            source_at(n - 1, a - inputs)
        }) by {}
        assert(here.no_duplicates()) by {
            assert forall|a: int, b: int| 0 <= a < here.len() && 0 <= b < here.len() && a != b implies here[a]
                != here[b] by {
                assert(here[a].node == n - 1);
                assert(here[b].node == n - 1);
            }
        }
        assert forall|a: int, b: int| 0 <= a < before.len() && 0 <= b < here.len() implies before[a]
            != here[b] by {
            assert(before[a].node < n - 1);
            assert(here[b].node == n - 1);
        }
        vstd::seq_lib::lemma_no_dup_in_concat(before, here);
        let all = port_list(nodes, edges, n);
        assert(all == before + here);
        assert forall|a: int| 0 <= a < all.len() implies (#[trigger] all[a]).node < n && is_port(
            nodes,
            edges,
            all[a],
        ) by {
            if a < before.len() {
                assert(all[a] == before[a]);
            } else {
                assert(all[a] == here[a - before.len()]);
            }
        }
    }
}

/// The location reached from `v0` by `k` hops backwards along arcs from
/// locations that are not in `gone`.
pub open spec fn retreat<S>(
    nodes: Seq<Seq<Seq<Seq<S>>>>,
    edges: Seq<Seq<Seq<Target>>>,
    unit: S,
    gone: Set<Location>,
    v0: Location,
    k: nat,
) -> Location
    decreases k,
{
    if k == 0 {
        v0
    } else {
        let v = retreat(nodes, edges, unit, gone, v0, (k - 1) as nat);
        choose|u: Location| arc(nodes, edges, unit, u, v) && !gone.contains(u)
    }
}

/// Every port that is not in `gone` has an arc from a location that is not in
/// `gone`.
#[verifier::opaque]
pub open spec fn stuck<S>(
    nodes: Seq<Seq<Seq<Seq<S>>>>,
    edges: Seq<Seq<Seq<Target>>>,
    unit: S,
    gone: Set<Location>,
) -> bool {
    forall|v: Location|
        #[trigger] is_port(nodes, edges, v) && !gone.contains(v) ==> exists|u: Location| #[trigger]
            arc(nodes, edges, unit, u, v) && !gone.contains(u)
}

/// Hopping backwards in a stuck graph stays among the ports that are not gone.
proof fn lemma_retreat<S>(
    nodes: Seq<Seq<Seq<Seq<S>>>>,
    edges: Seq<Seq<Seq<Target>>>,
    unit: S,
    gone: Set<Location>,
    v0: Location,
    k: nat,
)
    requires
        shaped(nodes, edges),
        edges_closed(nodes, edges),
        stuck(nodes, edges, unit, gone),
        is_port(nodes, edges, v0),
        !gone.contains(v0),
    ensures
        is_port(nodes, edges, retreat(nodes, edges, unit, gone, v0, k)),
        !gone.contains(retreat(nodes, edges, unit, gone, v0, k)),
        k > 0 ==> arc(
            nodes,
            edges,
            unit,
            retreat(nodes, edges, unit, gone, v0, k),
            retreat(nodes, edges, unit, gone, v0, (k - 1) as nat),
        ),
    decreases k,
{
    if k > 0 {
        reveal(stuck);
        lemma_retreat(nodes, edges, unit, gone, v0, (k - 1) as nat);
        let v = retreat(nodes, edges, unit, gone, v0, (k - 1) as nat);
        let w = choose|u: Location| #[trigger] arc(nodes, edges, unit, u, v) && !gone.contains(u);
        assert(arc(nodes, edges, unit, w, v) && !gone.contains(w));
        let u = retreat(nodes, edges, unit, gone, v0, k);
        assert(arc(nodes, edges, unit, u, v) && !gone.contains(u));
        lemma_arc_ports(nodes, edges, unit, u, v);
    }
}

/// A sequence longer than a finite set that holds all of it repeats itself.
pub proof fn lemma_pigeon(walk: Seq<Location>, all: Set<Location>)
    requires
        all.finite(),
        walk.len() > all.len(),
        forall|k: int| 0 <= k < walk.len() ==> all.contains(#[trigger] walk[k]),
    ensures
        exists|a: int, b: int| 0 <= a < b < walk.len() && walk[a] == walk[b],
{
    if walk.no_duplicates() {
        walk.unique_seq_to_set();
        assert(walk.to_set().subset_of(all));
        vstd::set_lib::lemma_len_subset(walk.to_set(), all);
        assert(false);
    }
    let (a0, b0) = choose|a: int, b: int|
        0 <= a < walk.len() && 0 <= b < walk.len() && a != b && walk[a] == walk[b];
    if a0 < b0 {
        assert(0 <= a0 < b0 < walk.len() && walk[a0] == walk[b0]);
    } else {
        assert(0 <= b0 < a0 < walk.len() && walk[b0] == walk[a0]);
    }
}

/// Hopping backwards from a location to itself closes a cycle.
proof fn lemma_retreat_cycle<S>(
    nodes: Seq<Seq<Seq<Seq<S>>>>,
    edges: Seq<Seq<Seq<Target>>>,
    unit: S,
    gone: Set<Location>,
    v0: Location,
    a: nat,
    b: nat,
)
    requires
        shaped(nodes, edges),
        edges_closed(nodes, edges),
        stuck(nodes, edges, unit, gone),
        is_port(nodes, edges, v0),
        !gone.contains(v0),
        a < b,
        retreat(nodes, edges, unit, gone, v0, a) == retreat(nodes, edges, unit, gone, v0, b),
    ensures
        has_cycle(nodes, edges, unit),
{
    let path = Seq::new(
        (b - a + 1) as nat,
        |k: int| retreat(nodes, edges, unit, gone, v0, (b - k) as nat),
    );
    assert forall|k: int| 0 <= k < path.len() - 1 implies arc(
        nodes,
        edges,
        unit,
        #[trigger] path[k],
        path[k + 1],
    ) by {
        lemma_retreat(nodes, edges, unit, gone, v0, (b - k) as nat);
        assert(path[k] == retreat(nodes, edges, unit, gone, v0, (b - k) as nat));
        assert(path[k + 1] == retreat(nodes, edges, unit, gone, v0, (b - k - 1) as nat));
    }
    assert(path[0] == retreat(nodes, edges, unit, gone, v0, b));
    assert(path[path.len() - 1] == retreat(nodes, edges, unit, gone, v0, a));
    assert(is_walk(nodes, edges, unit, path));
    assert(path.len() >= 2 && is_walk(nodes, edges, unit, path) && path[0] == path.last());
}

/// A stuck graph with a port that is not gone has a cycle.
pub proof fn lemma_stuck_cycle<S>(
    nodes: Seq<Seq<Seq<Seq<S>>>>,
    edges: Seq<Seq<Seq<Target>>>,
    unit: S,
    gone: Set<Location>,
    v0: Location,
)
    requires
        shaped(nodes, edges),
        edges_closed(nodes, edges),
        stuck(nodes, edges, unit, gone),
        is_port(nodes, edges, v0),
        !gone.contains(v0),
    ensures
        has_cycle(nodes, edges, unit),
{
    let ports = port_list(nodes, edges, nodes.len() as int);
    let all = ports.to_set();
    vstd::seq_lib::seq_to_set_is_finite(ports);
    let walk = Seq::new(all.len() + 1, |k: int| retreat(nodes, edges, unit, gone, v0, k as nat));
    assert forall|k: int| 0 <= k < walk.len() implies all.contains(#[trigger] walk[k]) by {
        lemma_retreat(nodes, edges, unit, gone, v0, k as nat);
        lemma_port_list(nodes, edges, nodes.len() as int, walk[k]);
    }
    lemma_pigeon(walk, all);
    let (a, b) = choose|a: int, b: int| 0 <= a < b < walk.len() && walk[a] == walk[b];
    assert(walk[a] == retreat(nodes, edges, unit, gone, v0, a as nat));
    assert(walk[b] == retreat(nodes, edges, unit, gone, v0, b as nat));
    lemma_retreat_cycle(nodes, edges, unit, gone, v0, a as nat, b as nat);
}

/// The count of a row does not fall as more ports are counted.
pub proof fn lemma_row_grow(
    ports: Seq<Seq<Target>>,
    gone: Set<Location>,
    node: int,
    t: Target,
    a: int,
    b: int,
)
    requires
        0 <= a <= b,
    ensures
        row_into(ports, gone, node, t, a) <= row_into(ports, gone, node, t, b),
    decreases b - a,
{
    if a < b {
        lemma_row_grow(ports, gone, node, t, a, b - 1);
    }
}

/// The count does not fall as more nodes are counted.
pub proof fn lemma_all_grow(edges: Seq<Seq<Seq<Target>>>, gone: Set<Location>, t: Target, a: int, b: int)
    requires
        0 <= a <= b,
    ensures
        all_into(edges, gone, t, a) <= all_into(edges, gone, t, b),
    decreases b - a,
{
    if a < b {
        lemma_all_grow(edges, gone, t, a, b - 1);
    }
}

/// The count does not fall as more input ports are counted.
pub proof fn lemma_source_grow<S>(
    rows: Seq<Seq<Seq<S>>>,
    gone: Set<Location>,
    node: int,
    j: int,
    a: int,
    b: int,
    unit: S,
)
    requires
        0 <= a <= b,
    ensures
        into_source(rows, gone, node, j, a, unit) <= into_source(rows, gone, node, j, b, unit),
    decreases b - a,
{
    if a < b {
        lemma_source_grow(rows, gone, node, j, a, b - 1, unit);
    }
}

/// With nothing gone the count does not depend on which node it is.
pub proof fn lemma_source_anywhere<S>(rows: Seq<Seq<Seq<S>>>, n1: int, n2: int, j: int, i: int, unit: S)
    ensures
        into_source(rows, Set::empty(), n1, j, i, unit) == into_source(
            rows,
            Set::empty(),
            n2,
            j,
            i,
            unit,
        ),
    decreases i,
{
    if i > 0 {
        lemma_source_anywhere(rows, n1, n2, j, i - 1, unit);
    }
}

/// The count of the arcs into each port fits in a number of the machine.
pub open spec fn degrees_fit<S>(nodes: Seq<Seq<Seq<Seq<S>>>>, edges: Seq<Seq<Seq<Target>>>, unit: S)
    -> bool {
    forall|l: Location|
        is_port(nodes, edges, l) ==> #[trigger] in_degree(nodes, edges, unit, Set::empty(), l)
            <= usize::MAX
}

/// No list of the graph is longer than `width`: not that of its nodes, nor
/// those of the ports of a node, of the edges from a port, or of the summaries
/// between two ports.
pub open spec fn narrow<S>(nodes: Seq<Seq<Seq<Seq<S>>>>, edges: Seq<Seq<Seq<Target>>>, width: nat) -> bool {
    &&& edges.len() <= width
    &&& forall|n: int| 0 <= n < edges.len() ==> (#[trigger] edges[n]).len() <= width
    &&& forall|n: int, p: int|
        0 <= n < edges.len() && 0 <= p < edges[n].len() ==> (#[trigger] edges[n][p]).len() <= width
    &&& forall|n: int| 0 <= n < nodes.len() ==> (#[trigger] nodes[n]).len() <= width
    &&& forall|n: int, i: int, j: int|
        0 <= n < nodes.len() && 0 <= i < nodes[n].len() && 0 <= j < nodes[n][i].len() ==> (
        #[trigger] nodes[n][i][j]).len() <= width
}

/// A row counts at most its ports times the width of the graph.
proof fn lemma_row_into_narrow(
    ports: Seq<Seq<Target>>,
    gone: Set<Location>,
    node: int,
    t: Target,
    p: int,
    width: nat,
)
    requires
        0 <= p <= ports.len(),
        forall|q: int| 0 <= q < ports.len() ==> (#[trigger] ports[q]).len() <= width,
    ensures
        row_into(ports, gone, node, t, p) <= p * width,
    decreases p,
{
    if p > 0 {
        lemma_row_into_narrow(ports, gone, node, t, p - 1, width);
        lemma_hits(ports[p - 1], ports[p - 1].len() as int, t);
        assert((p - 1) * width + width == p * width) by (nonlinear_arith);
    } else {
        assert(0 * width == 0) by (nonlinear_arith);
    }
}

/// The nodes count at most their number times the square of the width of the
/// graph.
proof fn lemma_all_into_narrow(edges: Seq<Seq<Seq<Target>>>, gone: Set<Location>, t: Target, n: int, width: nat)
    requires
        0 <= n <= edges.len(),
        forall|m: int| 0 <= m < edges.len() ==> (#[trigger] edges[m]).len() <= width,
        forall|m: int, p: int|
            0 <= m < edges.len() && 0 <= p < edges[m].len() ==> (#[trigger] edges[m][p]).len() <= width,
    ensures
        all_into(edges, gone, t, n) <= n * (width * width),
    decreases n,
{
    if n > 0 {
        lemma_all_into_narrow(edges, gone, t, n - 1, width);
        let ports = edges[n - 1];
        assert forall|q: int| 0 <= q < ports.len() implies (#[trigger] ports[q]).len() <= width by {
            assert(edges[n - 1][q].len() <= width);
        }
        lemma_row_into_narrow(ports, gone, n - 1, t, ports.len() as int, width);
        let len = ports.len() as int;
        assert(len * width <= width * width) by (nonlinear_arith)
            requires
                0 <= len <= width,
        ;
        assert((n - 1) * (width * width) + width * width == n * (width * width)) by (nonlinear_arith);
    } else {
        assert(0 * (width * width) == 0) by (nonlinear_arith);
    }
}

/// The input ports count at most their number times the width of the graph.
proof fn lemma_into_source_narrow<S>(
    rows: Seq<Seq<Seq<S>>>,
    gone: Set<Location>,
    node: int,
    j: int,
    i: int,
    unit: S,
    width: nat,
)
    requires
        0 <= i <= rows.len(),
        forall|a: int| 0 <= a < rows.len() ==> (#[trigger] rows[a])[j].len() <= width,
    ensures
        into_source(rows, gone, node, j, i, unit) <= i * width,
    decreases i,
{
    if i > 0 {
        lemma_into_source_narrow(rows, gone, node, j, i - 1, unit, width);
        assert(rows[i - 1][j].len() <= width);
        lemma_units(rows[i - 1][j], rows[i - 1][j].len() as int, unit);
        assert((i - 1) * width + width == i * width) by (nonlinear_arith);
    } else {
        assert(0 * width == 0) by (nonlinear_arith);
    }
}

/// In a graph that is narrow enough, the count of the arcs into each port
/// fits in a number of the machine.
pub proof fn lemma_degrees_fit<S>(
    nodes: Seq<Seq<Seq<Seq<S>>>>,
    edges: Seq<Seq<Seq<Target>>>,
    unit: S,
    width: nat,
)
    requires
        shaped(nodes, edges),
        narrow(nodes, edges, width),
        width * width * width <= usize::MAX,
    ensures
        degrees_fit(nodes, edges, unit),
{
    assert forall|l: Location| is_port(nodes, edges, l) implies #[trigger] in_degree(
        nodes,
        edges,
        unit,
        Set::empty(),
        l,
    ) <= usize::MAX by {
        match l.port {
            Port::Target(q) => {
                let t = Target { node: l.node, port: q };
                lemma_all_into_narrow(edges, Set::empty(), t, edges.len() as int, width);
                let n = edges.len() as int;
                assert(n * (width * width) <= width * width * width) by (nonlinear_arith)
                    requires
                        0 <= n <= width,
                ;
            },
            Port::Source(j) => {
                let rows = nodes[l.node as int];
                assert forall|a: int| 0 <= a < rows.len() implies (#[trigger] rows[a])[j as int].len()
                    <= width by {
                    assert(nodes[l.node as int][a].len() == edges[l.node as int].len());
                    assert(nodes[l.node as int][a][j as int].len() <= width);
                }
                lemma_into_source_narrow(
                    rows,
                    Set::empty(),
                    l.node as int,
                    j as int,
                    rows.len() as int,
                    unit,
                    width,
                );
                let i = rows.len() as int;
                assert(i * width <= width * width * width) by (nonlinear_arith)
                    requires
                        0 <= i <= width,
                ;
            },
        }
    }
}

/// `l` has an entry in the tables.
pub open spec fn tabled(deg_t: Vec<Vec<usize>>, deg_s: Vec<Vec<usize>>, l: Location) -> bool {
    match l.port {
        Port::Target(q) => l.node < deg_t.len() && q < deg_t[l.node as int].len(),
        Port::Source(j) => l.node < deg_s.len() && j < deg_s[l.node as int].len(),
    }
}

/// The entry of `l` in the tables.
pub open spec fn tally(deg_t: Vec<Vec<usize>>, deg_s: Vec<Vec<usize>>, l: Location) -> usize {
    match l.port {
        Port::Target(q) => deg_t[l.node as int][q as int],
        Port::Source(j) => deg_s[l.node as int][j as int],
    }
}

/// The tables have an entry for each port of the graph, and for nothing else.
pub open spec fn tables_fit<S>(
    nodes: Seq<Seq<Seq<Seq<S>>>>,
    edges: Seq<Seq<Seq<Target>>>,
    deg_t: Vec<Vec<usize>>,
    deg_s: Vec<Vec<usize>>,
) -> bool {
    &&& deg_t.len() == nodes.len()
    &&& deg_s.len() == edges.len()
    &&& forall|m: int| 0 <= m < deg_t.len() ==> (#[trigger] deg_t[m]).len() == nodes[m].len()
    &&& forall|m: int| 0 <= m < deg_s.len() ==> (#[trigger] deg_s[m]).len() == edges[m].len()
}

/// For each input port, the number of edges that lead to it.
pub(crate) fn count_edges<S: PartialOrder + Value>(nodes: &Nodes<S>, edges: &Edges) -> (deg: Vec<Vec<usize>>)
    requires
        shaped(nodes_view(*nodes), edges_view(*edges)),
        edges_closed(nodes_view(*nodes), edges_view(*edges)),
        forall|m: int, q: int|
            0 <= m < nodes.len() && 0 <= q < nodes[m].len() ==> #[trigger] all_into(
                edges_view(*edges),
                Set::empty(),
                Target { node: m as usize, port: q as usize },
                edges.len() as int,
            ) <= usize::MAX,
    ensures
        deg.len() == nodes.len(),
        forall|m: int| 0 <= m < deg.len() ==> (#[trigger] deg[m]).len() == nodes[m].len(),
        forall|m: int, q: int|
            0 <= m < deg.len() && 0 <= q < deg[m].len() ==> (#[trigger] deg[m][q]) == all_into(
                edges_view(*edges),
                Set::empty(),
                Target { node: m as usize, port: q as usize },
                edges.len() as int,
            ),
{
    let ghost nv = nodes_view(*nodes);
    let ghost ev = edges_view(*edges);
    let ghost none = Set::<Location>::empty();
    let mut deg: Vec<Vec<usize>> = Vec::new();
    let mut m: usize = 0;
    while m < nodes.len()
        invariant
            0 <= m <= nodes.len(),
            deg.len() == m,
            forall|a: int| 0 <= a < m ==> (#[trigger] deg[a]).len() == nodes[a].len(),
            forall|a: int, b: int| 0 <= a < m && 0 <= b < deg[a].len() ==> (#[trigger] deg[a][b]) == 0,
        decreases nodes.len() - m,
    {
        let mut row: Vec<usize> = Vec::new();
        let mut q: usize = 0;
        while q < nodes[m].len()
            invariant
                0 <= m < nodes.len(),
                0 <= q <= nodes[m as int].len(),
                row.len() == q,
                forall|b: int| 0 <= b < q ==> (#[trigger] row[b]) == 0,
            decreases nodes[m as int].len() - q,
        {
            row.push(0);
            q += 1;
        }
        deg.push(row);
        m += 1;
    }
    let mut n: usize = 0;
    while n < edges.len()
        invariant
            0 <= n <= edges.len(),
            nv == nodes_view(*nodes),
            ev == edges_view(*edges),
            none == Set::<Location>::empty(),
            shaped(nv, ev),
            edges_closed(nv, ev),
            forall|m: int, q: int|
                0 <= m < nodes.len() && 0 <= q < nodes[m].len() ==> #[trigger] all_into(
                    ev,
                    none,
                    Target { node: m as usize, port: q as usize },
                    edges.len() as int,
                ) <= usize::MAX,
            deg.len() == nodes.len(),
            forall|a: int| 0 <= a < deg.len() ==> (#[trigger] deg[a]).len() == nodes[a].len(),
            forall|a: int, b: int|
                0 <= a < deg.len() && 0 <= b < deg[a].len() ==> (#[trigger] deg[a][b]) == all_into(
                    ev,
                    none,
                    Target { node: a as usize, port: b as usize },
                    n as int,
                ),
        decreases edges.len() - n,
    {
        let mut p: usize = 0;
        while p < edges[n].len()
            invariant
                0 <= n < edges.len(),
                0 <= p <= edges[n as int].len(),
                nv == nodes_view(*nodes),
                ev == edges_view(*edges),
                none == Set::<Location>::empty(),
                shaped(nv, ev),
                edges_closed(nv, ev),
                forall|m: int, q: int|
                    0 <= m < nodes.len() && 0 <= q < nodes[m].len() ==> #[trigger] all_into(
                        ev,
                        none,
                        Target { node: m as usize, port: q as usize },
                        edges.len() as int,
                    ) <= usize::MAX,
                deg.len() == nodes.len(),
                forall|a: int| 0 <= a < deg.len() ==> (#[trigger] deg[a]).len() == nodes[a].len(),
                forall|a: int, b: int|
                    0 <= a < deg.len() && 0 <= b < deg[a].len() ==> (#[trigger] deg[a][b]) == all_into(
                        ev,
                        none,
                        Target { node: a as usize, port: b as usize },
                        n as int,
                    ) + row_into(
                        ev[n as int],
                        none,
                        n as int,
                        Target { node: a as usize, port: b as usize },
                        p as int,
                    ),
            decreases edges[n as int].len() - p,
        {
            let mut k: usize = 0;
            while k < edges[n][p].len()
                invariant
                    0 <= n < edges.len(),
                    0 <= p < edges[n as int].len(),
                    0 <= k <= edges[n as int][p as int].len(),
                    nv == nodes_view(*nodes),
                    ev == edges_view(*edges),
                    none == Set::<Location>::empty(),
                    shaped(nv, ev),
                    edges_closed(nv, ev),
                    forall|m: int, q: int|
                        0 <= m < nodes.len() && 0 <= q < nodes[m].len() ==> #[trigger] all_into(
                            ev,
                            none,
                            Target { node: m as usize, port: q as usize },
                            edges.len() as int,
                        ) <= usize::MAX,
                    deg.len() == nodes.len(),
                    forall|a: int| 0 <= a < deg.len() ==> (#[trigger] deg[a]).len() == nodes[a].len(),
                    forall|a: int, b: int|
                        0 <= a < deg.len() && 0 <= b < deg[a].len() ==> (#[trigger] deg[a][b])
                            == all_into(
                            ev,
                            none,
                            Target { node: a as usize, port: b as usize },
                            n as int,
                        ) + row_into(
                            ev[n as int],
                            none,
                            n as int,
                            Target { node: a as usize, port: b as usize },
                            p as int,
                        ) + hits(
                            ev[n as int][p as int],
                            k as int,
                            Target { node: a as usize, port: b as usize },
                        ),
                decreases edges[n as int][p as int].len() - k,
            {
                let target = edges[n][p][k];
                proof {
                    assert(target == ev[n as int][p as int][k as int]);
                    assert(is_port(nv, ev, Location::of_target(target)));
                    assert(nv[target.node as int].len() == nodes[target.node as int].len());
                    let t = Target { node: target.node as int as usize, port: target.port as int as usize };
                    assert(t == target);
                    lemma_hits_grow(ev[n as int][p as int], k + 1, ev[n as int][p as int].len() as int, t);
                    lemma_row_grow(ev[n as int], none, n as int, t, p + 1, ev[n as int].len() as int);
                    lemma_all_grow(ev, none, t, n + 1, ev.len() as int);
                    assert(all_into(ev, none, t, edges.len() as int) <= usize::MAX);
                }
                let count = deg[target.node][target.port];
                deg[target.node][target.port] = count + 1;
                k += 1;
            }
            p += 1;
        }
        n += 1;
    }
    deg
}

/// For each output port of a node, the number of summaries of the empty path
/// that lead to it from the input ports of the node.
pub(crate) fn count_defaults<T: Timestamp>(node: &Vec<Vec<Antichain<T::Summary>>>, outputs: usize) -> (deg:
    Vec<usize>)
    requires
        forall|i: int| 0 <= i < node.len() ==> (#[trigger] node[i]).len() == outputs,
        forall|j: int|
            0 <= j < outputs ==> #[trigger] into_source(
                node_view(*node),
                Set::empty(),
                0,
                j,
                node.len() as int,
                T::Summary::identity(),
            ) <= usize::MAX,
    ensures
        deg.len() == outputs,
        forall|j: int|
            0 <= j < outputs ==> (#[trigger] deg[j]) == into_source(
                node_view(*node),
                Set::empty(),
                0,
                j,
                node.len() as int,
                T::Summary::identity(),
            ),
{
    let ghost rows = node_view(*node);
    let ghost none = Set::<Location>::empty();
    let ghost unit = T::Summary::identity();
    let mut deg: Vec<usize> = Vec::new();
    let mut q: usize = 0;
    while q < outputs
        invariant
            0 <= q <= outputs,
            deg.len() == q,
            forall|b: int| 0 <= b < q ==> (#[trigger] deg[b]) == 0,
        decreases outputs - q,
    {
        deg.push(0);
        q += 1;
    }
    let mut i: usize = 0;
    while i < node.len()
        invariant
            0 <= i <= node.len(),
            rows == node_view(*node),
            none == Set::<Location>::empty(),
            unit == T::Summary::identity(),
            forall|a: int| 0 <= a < node.len() ==> (#[trigger] node[a]).len() == outputs,
            forall|j: int|
                0 <= j < outputs ==> #[trigger] into_source(rows, none, 0, j, node.len() as int, unit)
                    <= usize::MAX,
            deg.len() == outputs,
            forall|b: int|
                0 <= b < outputs ==> (#[trigger] deg[b]) == into_source(rows, none, 0, b, i as int, unit),
        decreases node.len() - i,
    {
        let mut j: usize = 0;
        while j < outputs
            invariant
                0 <= i < node.len(),
                0 <= j <= outputs,
                rows == node_view(*node),
                none == Set::<Location>::empty(),
                unit == T::Summary::identity(),
                forall|a: int| 0 <= a < node.len() ==> (#[trigger] node[a]).len() == outputs,
                forall|b: int|
                    0 <= b < outputs ==> #[trigger] into_source(
                        rows,
                        none,
                        0,
                        b,
                        node.len() as int,
                        unit,
                    ) <= usize::MAX,
                deg.len() == outputs,
                forall|b: int|
                    0 <= b < outputs ==> (#[trigger] deg[b]) == into_source(
                        rows,
                        none,
                        0,
                        b,
                        i as int,
                        unit,
                    ) + if b < j {
                        units(rows[i as int][b], rows[i as int][b].len() as int, unit)
                    } else {
                        0nat
                    },
            decreases outputs - j,
        {
            let summaries = &node[i][j];
            let mut k: usize = 0;
            while k < summaries.len()
                invariant
                    0 <= i < node.len(),
                    0 <= j < outputs,
                    *summaries == node[i as int][j as int],
                    0 <= k <= summaries@.len(),
                    rows == node_view(*node),
                    none == Set::<Location>::empty(),
                    unit == T::Summary::identity(),
                    forall|a: int| 0 <= a < node.len() ==> (#[trigger] node[a]).len() == outputs,
                    forall|b: int|
                        0 <= b < outputs ==> #[trigger] into_source(
                            rows,
                            none,
                            0,
                            b,
                            node.len() as int,
                            unit,
                        ) <= usize::MAX,
                    deg.len() == outputs,
                    forall|b: int|
                        0 <= b < outputs ==> (#[trigger] deg[b]) == into_source(
                            rows,
                            none,
                            0,
                            b,
                            i as int,
                            unit,
                        ) + if b < j {
                            units(rows[i as int][b], rows[i as int][b].len() as int, unit)
                        } else if b == j {
                            units(rows[i as int][b], k as int, unit)
                        } else {
                            0nat
                        },
                decreases summaries@.len() - k,
            {
                proof {
                    assert(rows[i as int][j as int] == summaries@);
                }
                if summaries.get(k).is_default() {
                    proof {
                        lemma_units_grow(summaries@, k + 1, summaries@.len() as int, unit);
                        lemma_source_grow(rows, none, 0, j as int, i + 1, node.len() as int, unit);
                        assert(into_source(rows, none, 0, j as int, node.len() as int, unit)
                            <= usize::MAX);
                    }
                    let count = deg[j];
                    deg[j] = count + 1;
                }
                k += 1;
            }
            j += 1;
        }
        i += 1;
    }
    deg
}

/// Whether a sequence with one more element holds a value.
pub proof fn lemma_push_contains(s: Seq<Location>, x: Location, l: Location)
    ensures
        s.push(x).contains(l) <==> s.contains(l) || l == x,
{
    if s.contains(l) {
        let i = s.index_of(l);
        assert(s.push(x)[i] == l);
    }
    if l == x {
        assert(s.push(x)[s.len() as int] == l);
    }
    if s.push(x).contains(l) {
        let i = s.push(x).index_of(l);
        if i < s.len() {
            assert(s[i] == l);
        }
    }
}

/// Every entry of the tables is zero.
pub(crate) fn all_zero(deg_t: &Vec<Vec<usize>>, deg_s: &Vec<Vec<usize>>) -> (r: bool)
    ensures
        r == forall|l: Location| tabled(*deg_t, *deg_s, l) ==> tally(*deg_t, *deg_s, l) == 0,
{
    let mut m: usize = 0;
    while m < deg_t.len()
        invariant
            0 <= m <= deg_t.len(),
            forall|a: int, b: int| 0 <= a < m && 0 <= b < deg_t[a].len() ==> (#[trigger] deg_t[a][b]) == 0,
        decreases deg_t.len() - m,
    {
        let mut q: usize = 0;
        while q < deg_t[m].len()
            invariant
                0 <= m < deg_t.len(),
                0 <= q <= deg_t[m as int].len(),
                forall|b: int| 0 <= b < q ==> (#[trigger] deg_t[m as int][b]) == 0,
            decreases deg_t[m as int].len() - q,
        {
            if deg_t[m][q] != 0 {
                proof {
                    let l = Location { node: m, port: Port::Target(q) };
                    assert(tabled(*deg_t, *deg_s, l) && tally(*deg_t, *deg_s, l) != 0);
                }
                return false;
            }
            q += 1;
        }
        m += 1;
    }
    let mut m: usize = 0;
    while m < deg_s.len()
        invariant
            0 <= m <= deg_s.len(),
            forall|a: int, b: int|
                0 <= a < deg_t.len() && 0 <= b < deg_t[a].len() ==> (#[trigger] deg_t[a][b]) == 0,
            forall|a: int, b: int| 0 <= a < m && 0 <= b < deg_s[a].len() ==> (#[trigger] deg_s[a][b]) == 0,
        decreases deg_s.len() - m,
    {
        let mut q: usize = 0;
        while q < deg_s[m].len()
            invariant
                0 <= m < deg_s.len(),
                0 <= q <= deg_s[m as int].len(),
                forall|b: int| 0 <= b < q ==> (#[trigger] deg_s[m as int][b]) == 0,
            decreases deg_s[m as int].len() - q,
        {
            if deg_s[m][q] != 0 {
                proof {
                    let l = Location { node: m, port: Port::Source(q) };
                    assert(tabled(*deg_t, *deg_s, l) && tally(*deg_t, *deg_s, l) != 0);
                }
                return false;
            }
            q += 1;
        }
        m += 1;
    }
    true
}

/// The ports whose entry in the tables is zero, each once.
pub(crate) fn zero_ports(deg_t: &Vec<Vec<usize>>, deg_s: &Vec<Vec<usize>>) -> (r: Vec<Location>)
    requires
        deg_t.len() == deg_s.len(),
    ensures
        r@.no_duplicates(),
        forall|l: Location|
            #[trigger] r@.contains(l) <==> tabled(*deg_t, *deg_s, l) && tally(*deg_t, *deg_s, l) == 0,
{
    let mut work: Vec<Location> = Vec::new();
    let mut m: usize = 0;
    while m < deg_t.len()
        invariant
            0 <= m <= deg_t.len(),
            deg_t.len() == deg_s.len(),
            work@.no_duplicates(),
            forall|l: Location|
                #[trigger] work@.contains(l) <==> tabled(*deg_t, *deg_s, l) && tally(*deg_t, *deg_s, l) == 0
                    && l.node < m,
        decreases deg_t.len() - m,
    {
        let mut q: usize = 0;
        while q < deg_t[m].len()
            invariant
                0 <= m < deg_t.len(),
                deg_t.len() == deg_s.len(),
                0 <= q <= deg_t[m as int].len(),
                work@.no_duplicates(),
                forall|l: Location|
                    #[trigger] work@.contains(l) <==> tabled(*deg_t, *deg_s, l) && tally(*deg_t, *deg_s, l) == 0
                        && (l.node < m || (l.node == m && match l.port {
                        Port::Target(i) => i < q,
                        Port::Source(_) => false,
                    })),
            decreases deg_t[m as int].len() - q,
        {
            let ghost before = work@;
            let ghost x = Location { node: m, port: Port::Target(q) };
            if deg_t[m][q] == 0 {
                work.push(Location::new_target(m, q));
                proof {
                    assert(!before.contains(x));
                    assert forall|a: int, b: int|
                        0 <= a < work@.len() && 0 <= b < work@.len() && a != b implies work@[a]
                        != work@[b] by {
                        if a == before.len() {
                            assert(before[b] == work@[b]);
                            assert(before.contains(before[b]));
                        } else if b == before.len() {
                            assert(before[a] == work@[a]);
                            assert(before.contains(before[a]));
                        } else {
                            assert(before[a] == work@[a] && before[b] == work@[b]);
                        }
                    }
                }
            }
            proof {
                assert forall|l: Location|
                    #[trigger] work@.contains(l) <==> tabled(*deg_t, *deg_s, l) && tally(*deg_t, *deg_s, l) == 0
                        && (l.node < m || (l.node == m && match l.port {
                        Port::Target(i) => i < q + 1,
                        Port::Source(_) => false,
                    })) by {
                    if deg_t[m as int][q as int] == 0 {
                        lemma_push_contains(before, x, l);
                    }
                    if l == x {
                    } else {
                    }
                }
            }
            q += 1;
        }
        let mut q: usize = 0;
        while q < deg_s[m].len()
            invariant
                0 <= m < deg_t.len(),
                deg_t.len() == deg_s.len(),
                0 <= q <= deg_s[m as int].len(),
                work@.no_duplicates(),
                forall|l: Location|
                    #[trigger] work@.contains(l) <==> tabled(*deg_t, *deg_s, l) && tally(*deg_t, *deg_s, l) == 0
                        && (l.node < m || (l.node == m && match l.port {
                        Port::Target(_) => true,
                        Port::Source(j) => j < q,
                    })),
            decreases deg_s[m as int].len() - q,
        {
            let ghost before = work@;
            let ghost x = Location { node: m, port: Port::Source(q) };
            if deg_s[m][q] == 0 {
                work.push(Location::new_source(m, q));
                proof {
                    assert(!before.contains(x));
                    assert forall|a: int, b: int|
                        0 <= a < work@.len() && 0 <= b < work@.len() && a != b implies work@[a]
                        != work@[b] by {
                        if a == before.len() {
                            assert(before[b] == work@[b]);
                            assert(before.contains(before[b]));
                        } else if b == before.len() {
                            assert(before[a] == work@[a]);
                            assert(before.contains(before[a]));
                        } else {
                            assert(before[a] == work@[a] && before[b] == work@[b]);
                        }
                    }
                }
            }
            proof {
                assert forall|l: Location|
                    #[trigger] work@.contains(l) <==> tabled(*deg_t, *deg_s, l) && tally(*deg_t, *deg_s, l) == 0
                        && (l.node < m || (l.node == m && match l.port {
                        Port::Target(_) => true,
                        Port::Source(j) => j < q + 1,
                    })) by {
                    if deg_s[m as int][q as int] == 0 {
                        lemma_push_contains(before, x, l);
                    }
                    if l == x {
                    } else {
                    }
                }
            }
            q += 1;
        }
        m += 1;
    }
    work
}

/// `work` lists ports whose entry in the tables is zero, each once.
pub open spec fn zeros_listed(deg_t: Vec<Vec<usize>>, deg_s: Vec<Vec<usize>>, work: Seq<Location>)
    -> bool {
    &&& work.no_duplicates()
    &&& forall|a: int|
        0 <= a < work.len() ==> tabled(deg_t, deg_s, #[trigger] work[a]) && tally(
            deg_t,
            deg_s,
            work[a],
        ) == 0
}

/// Listing one more port, which was not listed and whose entry is zero, keeps
/// the list in order.
pub proof fn lemma_list_one(
    deg_t: Vec<Vec<usize>>,
    deg_s: Vec<Vec<usize>>,
    before: Seq<Location>,
    x: Location,
)
    requires
        zeros_listed(deg_t, deg_s, before),
        !before.contains(x),
        tabled(deg_t, deg_s, x),
        tally(deg_t, deg_s, x) == 0,
    ensures
        zeros_listed(deg_t, deg_s, before.push(x)),
{
    let work = before.push(x);
    assert forall|a: int, b: int| 0 <= a < work.len() && 0 <= b < work.len() && a != b implies work[a]
        != work[b] by {
        if a == before.len() {
            assert(before[b] == work[b]);
            assert(before.contains(before[b]));
        } else if b == before.len() {
            assert(before[a] == work[a]);
            assert(before.contains(before[a]));
        } else {
            assert(before[a] == work[a] && before[b] == work[b]);
        }
    }
    assert forall|a: int| 0 <= a < work.len() implies tabled(deg_t, deg_s, #[trigger] work[a]) && tally(
        deg_t,
        deg_s,
        work[a],
    ) == 0 by {
        if a < before.len() {
            assert(work[a] == before[a]);
        }
    }
}

/// Takes the edges to `targets` out of the counts, and lists each input port
/// whose count comes to zero.
pub(crate) fn release_targets(
    targets: &Vec<Target>,
    deg_t: &mut Vec<Vec<usize>>,
    deg_s: &Vec<Vec<usize>>,
    work: &mut Vec<Location>,
)
    requires
        zeros_listed(*old(deg_t), *deg_s, old(work)@),
        forall|k: int|
            0 <= k < targets.len() ==> tabled(
                *old(deg_t),
                *deg_s,
                Location::of_target(#[trigger] targets[k]),
            ),
        forall|m: int, q: int|
            0 <= m < old(deg_t).len() && 0 <= q < old(deg_t)[m].len() ==> (#[trigger] old(deg_t)[m][q]) >= hits(
                targets@,
                targets.len() as int,
                Target { node: m as usize, port: q as usize },
            ),
    ensures
        final(deg_t).len() == old(deg_t).len(),
        forall|m: int| 0 <= m < final(deg_t).len() ==> (#[trigger] final(deg_t)[m]).len() == old(deg_t)[m].len(),
        forall|m: int, q: int|
            0 <= m < final(deg_t).len() && 0 <= q < final(deg_t)[m].len() ==> (#[trigger] final(deg_t)[m][q]) == old(deg_t)[m][q] - hits(
                targets@,
                targets.len() as int,
                Target { node: m as usize, port: q as usize },
            ),
        zeros_listed(*final(deg_t), *deg_s, final(work)@),
        forall|l: Location|
            #[trigger] final(work)@.contains(l) <==> old(work)@.contains(l) || (tabled(*old(deg_t), *deg_s, l)
                && tally(*old(deg_t), *deg_s, l) != 0 && tally(*final(deg_t), *deg_s, l) == 0),
{
    let ghost deg0 = *deg_t;
    let ghost work0 = work@;
    let mut k: usize = 0;
    while k < targets.len()
        invariant
            0 <= k <= targets.len(),
            deg0 == *old(deg_t),
            work0 == old(work)@,
            zeros_listed(deg0, *deg_s, work0),
            forall|a: int|
                0 <= a < targets.len() ==> tabled(deg0, *deg_s, Location::of_target(#[trigger] targets[a])),
            forall|m: int, q: int|
                0 <= m < deg0.len() && 0 <= q < deg0[m].len() ==> (#[trigger] deg0[m][q]) >= hits(
                    targets@,
                    targets.len() as int,
                    Target { node: m as usize, port: q as usize },
                ),
            deg_t.len() == deg0.len(),
            forall|m: int| 0 <= m < deg_t.len() ==> (#[trigger] deg_t[m]).len() == deg0[m].len(),
            forall|m: int, q: int|
                0 <= m < deg_t.len() && 0 <= q < deg_t[m].len() ==> (#[trigger] deg_t[m][q])
                    == deg0[m][q] - hits(
                    targets@,
                    k as int,
                    Target { node: m as usize, port: q as usize },
                ),
            zeros_listed(*deg_t, *deg_s, work@),
            forall|l: Location|
                #[trigger] work@.contains(l) <==> work0.contains(l) || (tabled(deg0, *deg_s, l) && tally(
                    deg0,
                    *deg_s,
                    l,
                ) != 0 && tally(*deg_t, *deg_s, l) == 0),
        decreases targets.len() - k,
    {
        let target = targets[k];
        let ghost x = Location::of_target(target);
        let ghost before = work@;
        let ghost degb = *deg_t;
        proof {
            let t = Target { node: target.node as int as usize, port: target.port as int as usize };
            assert(t == target);
            assert(tabled(deg0, *deg_s, x));
            lemma_hits_grow(targets@, k + 1, targets.len() as int, t);
            assert(deg0[target.node as int][target.port as int] >= hits(
                targets@,
                targets.len() as int,
                t,
            ));
            assert(degb[target.node as int][target.port as int] >= 1);
            if before.contains(x) {
                let a = before.index_of(x);
                assert(tally(degb, *deg_s, before[a]) == 0);
            }
            if work0.contains(x) {
                let a = work0.index_of(x);
                assert(tally(deg0, *deg_s, work0[a]) == 0);
            }
            assert(!before.contains(x));
            assert(!work0.contains(x));
        }
        let count = deg_t[target.node][target.port] - 1;
        deg_t[target.node][target.port] = count;
        proof {
            assert forall|a: int| 0 <= a < before.len() implies tabled(
                *deg_t,
                *deg_s,
                #[trigger] before[a],
            ) && tally(*deg_t, *deg_s, before[a]) == 0 by {
                assert(before.contains(before[a]));
                assert(tabled(degb, *deg_s, before[a]));
            }
        }
        if count == 0 {
            work.push(Location::from_target(target));
            proof {
                lemma_list_one(*deg_t, *deg_s, before, x);
            }
        }
        proof {
            assert forall|m: int, q: int|
                0 <= m < deg_t.len() && 0 <= q < deg_t[m].len() implies (#[trigger] deg_t[m][q])
                == deg0[m][q] - hits(
                targets@,
                k + 1,
                Target { node: m as usize, port: q as usize },
            ) by {
                assert(degb[m][q] == deg0[m][q] - hits(
                    targets@,
                    k as int,
                    Target { node: m as usize, port: q as usize },
                ));
            }
            assert forall|l: Location|
                #[trigger] work@.contains(l) <==> work0.contains(l) || (tabled(deg0, *deg_s, l) && tally(
                    deg0,
                    *deg_s,
                    l,
                ) != 0 && tally(*deg_t, *deg_s, l) == 0) by {
                if count == 0 {
                    lemma_push_contains(before, x, l);
                }
                assert(before.contains(l) <==> work0.contains(l) || (tabled(deg0, *deg_s, l) && tally(
                    deg0,
                    *deg_s,
                    l,
                ) != 0 && tally(degb, *deg_s, l) == 0));
                if l == x {
                    assert(tally(*deg_t, *deg_s, l) == count);
                    assert(tally(deg0, *deg_s, l) != 0);
                } else {
                    if tabled(deg0, *deg_s, l) {
                        assert(tally(*deg_t, *deg_s, l) == tally(degb, *deg_s, l));
                    }
                }
            }
        }
        k += 1;
    }
}

/// Takes the summaries of the empty path in `row` out of the counts of the
/// output ports of `node`, and lists each output port whose count comes to
/// zero.
pub(crate) fn release_sources<T: Timestamp>(
    row: &Vec<Antichain<T::Summary>>,
    node: usize,
    deg_t: &Vec<Vec<usize>>,
    deg_s: &mut Vec<Vec<usize>>,
    work: &mut Vec<Location>,
)
    requires
        zeros_listed(*deg_t, *old(deg_s), old(work)@),
        node < old(deg_s).len(),
        row.len() == old(deg_s)[node as int].len(),
        forall|j: int|
            0 <= j < row.len() ==> (#[trigger] old(deg_s)[node as int][j]) >= units(
                row[j]@,
                row[j]@.len() as int,
                T::Summary::identity(),
            ),
    ensures
        final(deg_s).len() == old(deg_s).len(),
        forall|m: int| 0 <= m < final(deg_s).len() ==> (#[trigger] final(deg_s)[m]).len() == old(deg_s)[m].len(),
        forall|m: int| 0 <= m < final(deg_s).len() && m != node ==> (#[trigger] final(deg_s)[m]) == old(deg_s)[m],
        forall|j: int|
            0 <= j < row.len() ==> (#[trigger] final(deg_s)[node as int][j]) == old(deg_s)[node as int][j] - units(row[j]@, row[j]@.len() as int, T::Summary::identity()),
        zeros_listed(*deg_t, *final(deg_s), final(work)@),
        forall|l: Location|
            #[trigger] final(work)@.contains(l) <==> old(work)@.contains(l) || (tabled(*deg_t, *old(deg_s), l)
                && tally(*deg_t, *old(deg_s), l) != 0 && tally(*deg_t, *final(deg_s), l) == 0),
{
    let ghost deg0 = *deg_s;
    let ghost work0 = work@;
    let ghost unit = T::Summary::identity();
    let mut j: usize = 0;
    while j < row.len()
        invariant
            0 <= j <= row.len(),
            deg0 == *old(deg_s),
            work0 == old(work)@,
            unit == T::Summary::identity(),
            zeros_listed(*deg_t, deg0, work0),
            node < deg0.len(),
            row.len() == deg0[node as int].len(),
            forall|b: int|
                0 <= b < row.len() ==> (#[trigger] deg0[node as int][b]) >= units(
                    row[b]@,
                    row[b]@.len() as int,
                    unit,
                ),
            deg_s.len() == deg0.len(),
            forall|m: int| 0 <= m < deg_s.len() ==> (#[trigger] deg_s[m]).len() == deg0[m].len(),
            forall|m: int| 0 <= m < deg_s.len() && m != node ==> (#[trigger] deg_s[m]) == deg0[m],
            forall|b: int|
                0 <= b < row.len() ==> (#[trigger] deg_s[node as int][b]) == deg0[node as int][b] - (if b
                    < j {
                    units(row[b]@, row[b]@.len() as int, unit)
                } else {
                    0nat
                }),
            zeros_listed(*deg_t, *deg_s, work@),
            forall|l: Location|
                #[trigger] work@.contains(l) <==> work0.contains(l) || (tabled(*deg_t, deg0, l) && tally(
                    *deg_t,
                    deg0,
                    l,
                ) != 0 && tally(*deg_t, *deg_s, l) == 0),
        decreases row.len() - j,
    {
        let summaries = &row[j];
        let mut k: usize = 0;
        while k < summaries.len()
            invariant
                0 <= j < row.len(),
                *summaries == row[j as int],
                0 <= k <= summaries@.len(),
                deg0 == *old(deg_s),
                work0 == old(work)@,
                unit == T::Summary::identity(),
                zeros_listed(*deg_t, deg0, work0),
                node < deg0.len(),
                row.len() == deg0[node as int].len(),
                forall|b: int|
                    0 <= b < row.len() ==> (#[trigger] deg0[node as int][b]) >= units(
                        row[b]@,
                        row[b]@.len() as int,
                        unit,
                    ),
                deg_s.len() == deg0.len(),
                forall|m: int| 0 <= m < deg_s.len() ==> (#[trigger] deg_s[m]).len() == deg0[m].len(),
                forall|m: int| 0 <= m < deg_s.len() && m != node ==> (#[trigger] deg_s[m]) == deg0[m],
                forall|b: int|
                    0 <= b < row.len() ==> (#[trigger] deg_s[node as int][b]) == deg0[node as int][b]
                        - (if b < j {
                        units(row[b]@, row[b]@.len() as int, unit)
                    } else if b == j {
                        units(row[b]@, k as int, unit)
                    } else {
                        0nat
                    }),
                zeros_listed(*deg_t, *deg_s, work@),
                forall|l: Location|
                    #[trigger] work@.contains(l) <==> work0.contains(l) || (tabled(*deg_t, deg0, l) && tally(
                        *deg_t,
                        deg0,
                        l,
                    ) != 0 && tally(*deg_t, *deg_s, l) == 0),
            decreases summaries@.len() - k,
        {
            let ghost x = Location { node, port: Port::Source(j) };
            let ghost before = work@;
            let ghost degb = *deg_s;
            let ghost hit = summaries@[k as int] == unit;
            if summaries.get(k).is_default() {
                proof {
                    lemma_units_grow(summaries@, k + 1, summaries@.len() as int, unit);
                    assert(deg0[node as int][j as int] >= units(
                        row[j as int]@,
                        row[j as int]@.len() as int,
                        unit,
                    ));
                    assert(degb[node as int][j as int] >= 1);
                    assert(tabled(*deg_t, deg0, x));
                    if before.contains(x) {
                        let a = before.index_of(x);
                        assert(tally(*deg_t, degb, before[a]) == 0);
                    }
                    if work0.contains(x) {
                        let a = work0.index_of(x);
                        assert(tally(*deg_t, deg0, work0[a]) == 0);
                    }
                    assert(!before.contains(x));
                    assert(!work0.contains(x));
                }
                let count = deg_s[node][j] - 1;
                deg_s[node][j] = count;
                proof {
                    assert forall|a: int| 0 <= a < before.len() implies tabled(
                        *deg_t,
                        *deg_s,
                        #[trigger] before[a],
                    ) && tally(*deg_t, *deg_s, before[a]) == 0 by {
                        assert(before.contains(before[a]));
                        assert(tabled(*deg_t, degb, before[a]));
                    }
                }
                if count == 0 {
                    work.push(Location::new_source(node, j));
                    proof {
                        lemma_list_one(*deg_t, *deg_s, before, x);
                    }
                }
            }
            proof {
                assert forall|b: int| 0 <= b < row.len() implies (#[trigger] deg_s[node as int][b])
                    == deg0[node as int][b] - (if b < j {
                    units(row[b]@, row[b]@.len() as int, unit)
                } else if b == j {
                    units(row[b]@, k + 1, unit)
                } else {
                    0nat
                }) by {
                    assert(degb[node as int][b] == deg0[node as int][b] - (if b < j {
                        units(row[b]@, row[b]@.len() as int, unit)
                    } else if b == j {
                        units(row[b]@, k as int, unit)
                    } else {
                        0nat
                    }));
                }
                assert forall|l: Location|
                    #[trigger] work@.contains(l) <==> work0.contains(l) || (tabled(*deg_t, deg0, l) && tally(
                        *deg_t,
                        deg0,
                        l,
                    ) != 0 && tally(*deg_t, *deg_s, l) == 0) by {
                    assert(before.contains(l) <==> work0.contains(l) || (tabled(*deg_t, deg0, l)
                        && tally(*deg_t, deg0, l) != 0 && tally(*deg_t, degb, l) == 0));
                    if hit {
                        if deg_s[node as int][j as int] == 0 {
                            lemma_push_contains(before, x, l);
                        }
                        if l == x {
                            assert(tally(*deg_t, deg0, l) != 0);
                        } else {
                            if tabled(*deg_t, deg0, l) {
                                assert(tally(*deg_t, *deg_s, l) == tally(*deg_t, degb, l));
                            }
                        }
                    }
                }
            }
            k += 1;
            assert(forall|l: Location|
                #[trigger] work@.contains(l) <==> work0.contains(l) || (tabled(*deg_t, deg0, l) && tally(
                    *deg_t,
                    deg0,
                    l,
                ) != 0 && tally(*deg_t, *deg_s, l) == 0));
        }
        j += 1;
    }
}

} // verus!
