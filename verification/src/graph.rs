//! The shape of a dataflow graph: nodes with their internal summaries, and the
//! edges between their ports.
use vstd::prelude::*;
use crate::order::{PartialOrder, Value};
use crate::antichain::Antichain;
use crate::location::{Location, Port, Target};

verus! {

/// For each node, input port and output port: the summaries of the paths inside
/// the node from that input to that output.
pub type Nodes<S> = Vec<Vec<Vec<Antichain<S>>>>;

/// For each node and output port: the input ports that it is connected to.
pub type Edges = Vec<Vec<Vec<Target>>>;

/// The elements of each antichain of `row`.
pub open spec fn row_view<S: PartialOrder + Value>(row: Vec<Antichain<S>>) -> Seq<Seq<S>> {
    Seq::new(row.len() as nat, |j: int| row[j]@)
}

/// The summaries inside one node, by input port and output port.
pub open spec fn node_view<S: PartialOrder + Value>(node: Vec<Vec<Antichain<S>>>) -> Seq<
    Seq<Seq<S>>,
> {
    Seq::new(node.len() as nat, |i: int| row_view(node[i]))
}

/// The summaries inside each node.
pub open spec fn nodes_view<S: PartialOrder + Value>(nodes: Nodes<S>) -> Seq<Seq<Seq<Seq<S>>>> {
    Seq::new(nodes.len() as nat, |n: int| node_view(nodes[n]))
}

/// The edges from the output ports of one node.
pub open spec fn ports_view(ports: Vec<Vec<Target>>) -> Seq<Seq<Target>> {
    Seq::new(ports.len() as nat, |p: int| ports[p]@)
}

/// The edges from each output port of each node.
pub open spec fn edges_view(edges: Edges) -> Seq<Seq<Seq<Target>>> {
    Seq::new(edges.len() as nat, |n: int| ports_view(edges[n]))
}

/// Both tables hold the same nodes, and each row of a node's summaries has one
/// entry for each of the node's output ports.
pub open spec fn shaped<S>(nodes: Seq<Seq<Seq<Seq<S>>>>, edges: Seq<Seq<Seq<Target>>>) -> bool {
    &&& nodes.len() == edges.len()
    &&& forall|n: int, i: int|
        0 <= n < nodes.len() && 0 <= i < nodes[n].len() ==> (#[trigger] nodes[n][i]).len()
            == edges[n].len()
}

/// `loc` is a port of the graph.
pub open spec fn is_port<S>(
    nodes: Seq<Seq<Seq<Seq<S>>>>,
    edges: Seq<Seq<Seq<Target>>>,
    loc: Location,
) -> bool {
    &&& loc.node < nodes.len()
    &&& loc.node < edges.len()
    &&& match loc.port {
        Port::Target(i) => i < nodes[loc.node as int].len(),
        Port::Source(j) => j < edges[loc.node as int].len(),
    }
}

/// Every edge leads to an input port of the graph.
pub open spec fn edges_closed<S>(nodes: Seq<Seq<Seq<Seq<S>>>>, edges: Seq<Seq<Seq<Target>>>) -> bool {
    forall|n: int, p: int, k: int|
        0 <= n < edges.len() && 0 <= p < edges[n].len() && 0 <= k < edges[n][p].len() ==> is_port(
            nodes,
            edges,
            Location::of_target(#[trigger] edges[n][p][k]),
        )
}

/// The numbers of nodes and of their ports are numbers of the machine.
pub open spec fn sized<S>(nodes: Seq<Seq<Seq<Seq<S>>>>, edges: Seq<Seq<Seq<Target>>>) -> bool {
    &&& nodes.len() <= usize::MAX
    &&& edges.len() <= usize::MAX
    &&& forall|n: int| 0 <= n < nodes.len() ==> (#[trigger] nodes[n]).len() <= usize::MAX
    &&& forall|n: int| 0 <= n < edges.len() ==> (#[trigger] edges[n]).len() <= usize::MAX
}

/// What is held in vectors is sized.
pub proof fn lemma_views_sized<S: PartialOrder + Value>(nodes: Nodes<S>, edges: Edges)
    ensures
        sized(nodes_view(nodes), edges_view(edges)),
{
    let nv = nodes_view(nodes);
    let ev = edges_view(edges);
    assert forall|n: int| 0 <= n < nv.len() implies (#[trigger] nv[n]).len() <= usize::MAX by {
        assert(nv[n].len() == nodes[n].len());
    }
    assert forall|n: int| 0 <= n < ev.len() implies (#[trigger] ev[n]).len() <= usize::MAX by {
        assert(ev[n].len() == edges[n].len());
    }
}

/// A copy of the summaries inside the nodes.
pub(crate) fn duplicate_nodes<S: PartialOrder + Value>(nodes: &Nodes<S>) -> (r: Nodes<S>)
    ensures
        nodes_view(r) == nodes_view(*nodes),
{
    let mut out: Nodes<S> = Vec::new();
    let mut n: usize = 0;
    while n < nodes.len()
        invariant
            0 <= n <= nodes.len(),
            out.len() == n,
            forall|a: int| 0 <= a < n ==> node_view(#[trigger] out[a]) == node_view(nodes[a]),
        decreases nodes.len() - n,
    {
        let mut node: Vec<Vec<Antichain<S>>> = Vec::new();
        let mut i: usize = 0;
        while i < nodes[n].len()
            invariant
                0 <= n < nodes.len(),
                0 <= i <= nodes[n as int].len(),
                node.len() == i,
                forall|a: int| 0 <= a < i ==> row_view(#[trigger] node[a]) == row_view(nodes[n as int][a]),
            decreases nodes[n as int].len() - i,
        {
            let mut row: Vec<Antichain<S>> = Vec::new();
            let mut j: usize = 0;
            while j < nodes[n][i].len()
                invariant
                    0 <= n < nodes.len(),
                    0 <= i < nodes[n as int].len(),
                    0 <= j <= nodes[n as int][i as int].len(),
                    row.len() == j,
                    forall|a: int| 0 <= a < j ==> (#[trigger] row[a])@ == nodes[n as int][i as int][a]@,
                decreases nodes[n as int][i as int].len() - j,
            {
                row.push(nodes[n][i][j].duplicate());
                j += 1;
            }
            assert(row_view(row) =~= row_view(nodes[n as int][i as int]));
            node.push(row);
            i += 1;
        }
        assert(node_view(node) =~= node_view(nodes[n as int]));
        out.push(node);
        n += 1;
    }
    assert(nodes_view(out) =~= nodes_view(*nodes));
    out
}

/// A copy of the edges.
pub(crate) fn duplicate_edges(edges: &Edges) -> (r: Edges)
    ensures
        edges_view(r) == edges_view(*edges),
{
    let mut out: Edges = Vec::new();
    let mut n: usize = 0;
    while n < edges.len()
        invariant
            0 <= n <= edges.len(),
            out.len() == n,
            forall|a: int| 0 <= a < n ==> ports_view(#[trigger] out[a]) == ports_view(edges[a]),
        decreases edges.len() - n,
    {
        let mut ports: Vec<Vec<Target>> = Vec::new();
        let mut p: usize = 0;
        while p < edges[n].len()
            invariant
                0 <= n < edges.len(),
                0 <= p <= edges[n as int].len(),
                ports.len() == p,
                forall|a: int| 0 <= a < p ==> (#[trigger] ports[a])@ == edges[n as int][a]@,
            decreases edges[n as int].len() - p,
        {
            let mut targets: Vec<Target> = Vec::new();
            let mut k: usize = 0;
            while k < edges[n][p].len()
                invariant
                    0 <= n < edges.len(),
                    0 <= p < edges[n as int].len(),
                    0 <= k <= edges[n as int][p as int].len(),
                    targets.len() == k,
                    forall|a: int| 0 <= a < k ==> (#[trigger] targets[a]) == edges[n as int][p as int][a],
                decreases edges[n as int][p as int].len() - k,
            {
                targets.push(edges[n][p][k]);
                k += 1;
            }
            assert(targets@ =~= edges[n as int][p as int]@);
            ports.push(targets);
            p += 1;
        }
        assert(ports_view(ports) =~= ports_view(edges[n as int]));
        out.push(ports);
        n += 1;
    }
    assert(edges_view(out) =~= edges_view(*edges));
    out
}

} // verus!
