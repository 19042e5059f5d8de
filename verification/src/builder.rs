//! Collecting the nodes and edges of a graph.
use vstd::prelude::*;
use crate::order::{PathSummary, Timestamp};
use crate::antichain::Antichain;
use crate::location::{Location, Port, Source, Target};
use crate::graph::{
    Nodes, Edges, shaped, sized, edges_closed, is_port, nodes_view, edges_view, node_view, row_view,
    duplicate_nodes, duplicate_edges, lemma_views_sized,
};
use crate::acyclic::{
    has_cycle, degrees_fit, in_degree, all_into, into_source, hits, units, arc, tabled, tally,
    tables_fit, zeros_listed, count_edges, count_defaults, zero_ports, all_zero, release_targets,
    release_sources, port_list, sorted_by_arcs, earlier, stuck, source_at, target_at,
    lemma_source_anywhere, lemma_degree_zero, lemma_all_without_source, lemma_all_into_frame,
    lemma_source_without_target, lemma_into_source_frame, lemma_order_no_cycle, lemma_stuck_cycle,
    lemma_port_list, lemma_push_contains,
};
use crate::summarize::surveyed;
use crate::tracker::{Tracker, blank_ledger};

verus! {

/// Collects the description of a graph: for each node the numbers of its input
/// and output ports and the summaries of the paths inside it, and the edges
/// from output ports to input ports. Edges leave timestamps as they are.
pub struct Builder<T: Timestamp> {
    /// The summaries inside each node, by input port and output port.
    pub nodes: Nodes<T::Summary>,
    /// The edges from each output port of each node.
    pub edges: Edges,
    /// The numbers of input and output ports of each node.
    pub shape: Vec<(usize, usize)>,
}

impl<T: Timestamp> Builder<T> {
    /// The three tables hold the same number of nodes.
    pub open spec fn aligned(self) -> bool {
        &&& self.nodes.len() == self.edges.len()
        &&& self.nodes.len() == self.shape.len()
    }

    /// The description is consistent: the tables agree on the nodes and on the
    /// numbers of their ports, and every edge leads to an input port that
    /// exists.
    pub open spec fn wf(self) -> bool {
        &&& self.aligned()
        &&& shaped(nodes_view(self.nodes), edges_view(self.edges))
        &&& edges_closed(nodes_view(self.nodes), edges_view(self.edges))
        &&& forall|n: int|
            0 <= n < self.shape.len() ==> (#[trigger] self.shape[n]) == (
                self.nodes[n].len(),
                self.edges[n].len(),
            )
    }

    /// No edge leads to an input port of node `index` at or beyond `inputs`.
    pub open spec fn admits(self, index: usize, inputs: usize) -> bool {
        forall|n: int, p: int, k: int|
            0 <= n < self.edges.len() && 0 <= p < self.edges[n].len() && 0 <= k
                < self.edges[n][p].len() && (#[trigger] self.edges[n][p][k]).node == index
                ==> self.edges[n][p][k].port < inputs
    }

    /// Whether the description is consistent.
    pub fn is_consistent(&self) -> (r: bool)
        ensures
            r == self.wf(),
    {
        let ghost nv = nodes_view(self.nodes);
        let ghost ev = edges_view(self.edges);
        if self.nodes.len() != self.edges.len() || self.nodes.len() != self.shape.len() {
            return false;
        }
        let mut n: usize = 0;
        while n < self.nodes.len()
            invariant
                0 <= n <= self.nodes.len(),
                self.aligned(),
                nv == nodes_view(self.nodes),
                ev == edges_view(self.edges),
                forall|m: int, i: int|
                    0 <= m < n && 0 <= i < nv[m].len() ==> (#[trigger] nv[m][i]).len() == ev[m].len(),
                forall|m: int, p: int, k: int|
                    0 <= m < n && 0 <= p < ev[m].len() && 0 <= k < ev[m][p].len() ==> is_port(
                        nv,
                        ev,
                        Location::of_target(#[trigger] ev[m][p][k]),
                    ),
                forall|m: int|
                    0 <= m < n ==> (#[trigger] self.shape[m]) == (self.nodes[m].len(), self.edges[m].len()),
            decreases self.nodes.len() - n,
        {
            let inputs = self.nodes[n].len();
            let outputs = self.edges[n].len();
            if self.shape[n].0 != inputs || self.shape[n].1 != outputs {
                return false;
            }
            let mut i: usize = 0;
            while i < inputs
                invariant
                    0 <= n < self.nodes.len(),
                    self.aligned(),
                    nv == nodes_view(self.nodes),
                    ev == edges_view(self.edges),
                    inputs == self.nodes[n as int].len(),
                    outputs == self.edges[n as int].len(),
                    0 <= i <= inputs,
                    forall|a: int| 0 <= a < i ==> (#[trigger] nv[n as int][a]).len() == ev[n as int].len(),
                decreases inputs - i,
            {
                if self.nodes[n][i].len() != outputs {
                    proof {
                        assert(nv[n as int][i as int].len() != ev[n as int].len());
                    }
                    return false;
                }
                i += 1;
            }
            let mut p: usize = 0;
            while p < outputs
                invariant
                    0 <= n < self.nodes.len(),
                    self.aligned(),
                    nv == nodes_view(self.nodes),
                    ev == edges_view(self.edges),
                    outputs == self.edges[n as int].len(),
                    0 <= p <= outputs,
                    forall|a: int, k: int|
                        0 <= a < p && 0 <= k < ev[n as int][a].len() ==> is_port(
                            nv,
                            ev,
                            Location::of_target(#[trigger] ev[n as int][a][k]),
                        ),
                decreases outputs - p,
            {
                let targets = &self.edges[n][p];
                let mut k: usize = 0;
                while k < targets.len()
                    invariant
                        0 <= n < self.nodes.len(),
                        self.aligned(),
                        nv == nodes_view(self.nodes),
                        ev == edges_view(self.edges),
                        0 <= p < self.edges[n as int].len(),
                        *targets == self.edges[n as int][p as int],
                        0 <= k <= targets.len(),
                        forall|b: int|
                            0 <= b < k ==> is_port(
                                nv,
                                ev,
                                Location::of_target(#[trigger] ev[n as int][p as int][b]),
                            ),
                    decreases targets.len() - k,
                {
                    let target = targets[k];
                    proof {
                        assert(ev[n as int][p as int][k as int] == target);
                        if target.node < self.nodes.len() {
                            assert(nv[target.node as int].len() == self.nodes[target.node as int].len());
                        }
                    }
                    if target.node >= self.nodes.len() || target.port >= self.nodes[target.node].len() {
                        proof {
                            assert(!is_port(
                                nv,
                                ev,
                                Location::of_target(ev[n as int][p as int][k as int]),
                            ));
                        }
                        return false;
                    }
                    k += 1;
                }
                p += 1;
            }
            n += 1;
        }
        true
    }

    /// A copy of the description.
    pub fn duplicate(&self) -> (r: Self)
        ensures
            nodes_view(r.nodes) == nodes_view(self.nodes),
            edges_view(r.edges) == edges_view(self.edges),
            r.shape@ == self.shape@,
            r.aligned() == self.aligned(),
            r.wf() == self.wf(),
    {
        let mut shape: Vec<(usize, usize)> = Vec::new();
        let mut n: usize = 0;
        while n < self.shape.len()
            invariant
                0 <= n <= self.shape.len(),
                shape@ == self.shape@.take(n as int),
            decreases self.shape.len() - n,
        {
            shape.push(self.shape[n]);
            assert(self.shape@.take(n + 1) == self.shape@.take(n as int).push(self.shape@[n as int]));
            n += 1;
        }
        assert(self.shape@.take(n as int) == self.shape@);
        let copy = Builder {
            nodes: duplicate_nodes(&self.nodes),
            edges: duplicate_edges(&self.edges),
            shape,
        };
        proof {
            let nv = nodes_view(self.nodes);
            let ev = edges_view(self.edges);
            assert(nodes_view(copy.nodes).len() == nv.len());
            assert(edges_view(copy.edges).len() == ev.len());
            assert forall|m: int| 0 <= m < copy.nodes.len() implies (#[trigger] copy.nodes[m]).len()
                == self.nodes[m].len() by {
                assert(nodes_view(copy.nodes)[m].len() == nv[m].len());
            }
            assert forall|m: int| 0 <= m < copy.edges.len() implies (#[trigger] copy.edges[m]).len()
                == self.edges[m].len() by {
                assert(edges_view(copy.edges)[m].len() == ev[m].len());
            }
            if self.aligned() {
                assert forall|m: int| 0 <= m < self.shape.len() implies ((#[trigger] self.shape[m]) == (
                    self.nodes[m].len(),
                    self.edges[m].len(),
                )) == (copy.shape[m] == (copy.nodes[m].len(), copy.edges[m].len())) by {
                    assert(copy.shape[m] == self.shape[m]);
                    assert(copy.nodes[m].len() == self.nodes[m].len());
                    assert(copy.edges[m].len() == self.edges[m].len());
                }
            }
        }
        copy
    }

    /// A description without nodes.
    pub fn new() -> (r: Self)
        ensures
            r.nodes.len() == 0,
            r.edges.len() == 0,
            r.shape.len() == 0,
            r.wf(),
    {
        Builder { nodes: Vec::new(), edges: Vec::new(), shape: Vec::new() }
    }

    /// Describes node `index`: its numbers of input and output ports and the
    /// summaries inside it. An earlier description of the node is replaced; its
    /// edges stay where the number of output ports stays, and are dropped
    /// otherwise. Nodes below `index` that were not described yet come to be,
    /// without ports.
    pub fn add_node(
        &mut self,
        index: usize,
        inputs: usize,
        outputs: usize,
        summary: Vec<Vec<Antichain<T::Summary>>>,
    )
        requires
            old(self).aligned(),
            index < usize::MAX,
            summary.len() == inputs,
            forall|i: int| 0 <= i < summary.len() ==> (#[trigger] summary[i]).len() == outputs,
        ensures
            final(self).aligned(),
            final(self).nodes.len() == if old(self).nodes.len() > index {
                old(self).nodes.len() as int
            } else {
                index + 1
            },
            final(self).nodes[index as int] == summary,
            final(self).shape[index as int] == (inputs, outputs),
            final(self).edges[index as int].len() == outputs,
            index < old(self).edges.len() && old(self).edges[index as int].len() == outputs
                ==> final(self).edges[index as int] == old(self).edges[index as int],
            !(index < old(self).edges.len() && old(self).edges[index as int].len() == outputs)
                ==> forall|p: int|
                0 <= p < outputs ==> (#[trigger] final(self).edges[index as int][p]).len() == 0,
            forall|n: int|
                0 <= n < old(self).nodes.len() && n != index ==> {
                    &&& (#[trigger] final(self).nodes[n]) == old(self).nodes[n]
                    &&& final(self).edges[n] == old(self).edges[n]
                    &&& final(self).shape[n] == old(self).shape[n]
                },
            forall|n: int|
                old(self).nodes.len() <= n < index ==> {
                    &&& (#[trigger] final(self).nodes[n]).len() == 0
                    &&& final(self).edges[n].len() == 0
                    &&& final(self).shape[n] == (0usize, 0usize)
                },
            old(self).wf() && old(self).admits(index, inputs) ==> final(self).wf(),
    {
        while self.nodes.len() <= index
            invariant
                self.aligned(),
                old(self).aligned(),
                index < usize::MAX,
                self.nodes.len() >= old(self).nodes.len(),
                self.nodes.len() <= index + 1 || self.nodes.len() == old(self).nodes.len(),
                forall|n: int|
                    0 <= n < old(self).nodes.len() ==> {
                        &&& (#[trigger] self.nodes[n]) == old(self).nodes[n]
                        &&& self.edges[n] == old(self).edges[n]
                        &&& self.shape[n] == old(self).shape[n]
                    },
                forall|n: int|
                    old(self).nodes.len() <= n < self.nodes.len() ==> {
                        &&& (#[trigger] self.nodes[n]).len() == 0
                        &&& self.edges[n].len() == 0
                        &&& self.shape[n] == (0usize, 0usize)
                    },
            decreases index + 1 - self.nodes.len(),
        {
            self.nodes.push(Vec::new());
            self.edges.push(Vec::new());
            self.shape.push((0, 0));
        }
        let ghost mid_nodes = self.nodes@;
        let ghost mid_edges = self.edges@;
        let ghost mid_shape = self.shape@;
        proof {
            assert forall|n: int| 0 <= n < old(self).nodes.len() implies mid_nodes[n] == old(self).nodes[n]
                && mid_edges[n] == old(self).edges[n] && mid_shape[n] == old(self).shape[n] by {
                assert(self.nodes[n] == old(self).nodes[n]);
            }
            assert forall|n: int| old(self).nodes.len() <= n < mid_nodes.len() implies mid_nodes[n].len()
                == 0 && mid_edges[n].len() == 0 && mid_shape[n] == (0usize, 0usize) by {
                assert(self.nodes[n].len() == 0);
            }
        }
        self.nodes[index] = summary;
        assert(self.nodes@ == mid_nodes.update(index as int, summary));
        if self.edges[index].len() != outputs {
            let mut fresh: Vec<Vec<Target>> = Vec::new();
            let mut p: usize = 0;
            while p < outputs
                invariant
                    0 <= p <= outputs,
                    fresh.len() == p,
                    forall|a: int| 0 <= a < p ==> (#[trigger] fresh[a]).len() == 0,
                decreases outputs - p,
            {
                fresh.push(Vec::new());
                p += 1;
            }
            self.edges[index] = fresh;
            assert(self.edges@ == mid_edges.update(index as int, fresh));
        } else {
            assert(self.edges@ == mid_edges);
        }
        self.shape[index] = (inputs, outputs);
        assert(self.shape@ == mid_shape.update(index as int, (inputs, outputs)));
        proof {
            assert forall|n: int| 0 <= n < old(self).nodes.len() && n != index implies {
                &&& (#[trigger] self.nodes[n]) == old(self).nodes[n]
                &&& self.edges[n] == old(self).edges[n]
                &&& self.shape[n] == old(self).shape[n]
            } by {
                assert(self.nodes@[n] == mid_nodes[n]);
                assert(self.edges@[n] == mid_edges[n]);
                assert(self.shape@[n] == mid_shape[n]);
            }
            assert forall|n: int| old(self).nodes.len() <= n < self.nodes.len() && n != index implies {
                &&& (#[trigger] self.nodes[n]).len() == 0
                &&& self.edges[n].len() == 0
                &&& self.shape[n] == (0usize, 0usize)
            } by {
                assert(self.nodes@[n] == mid_nodes[n]);
                assert(self.edges@[n] == mid_edges[n]);
                assert(self.shape@[n] == mid_shape[n]);
            }
            if index >= old(self).nodes.len() {
                assert(mid_edges[index as int].len() == 0);
            }
            if old(self).wf() && old(self).admits(index, inputs) {
                Self::lemma_described(*old(self), *self, index, inputs, outputs);
            }
        }
    }

    /// Describing a node keeps a description consistent, where no edge leads
    /// beyond the input ports of the node.
    proof fn lemma_described(before: Self, after: Self, index: usize, inputs: usize, outputs: usize)
        requires
            before.wf(),
            before.admits(index, inputs),
            after.aligned(),
            after.nodes.len() >= before.nodes.len(),
            index < after.nodes.len(),
            after.nodes[index as int].len() == inputs,
            forall|i: int| 0 <= i < inputs ==> (#[trigger] after.nodes[index as int][i]).len() == outputs,
            after.shape[index as int] == (inputs, outputs),
            after.edges[index as int].len() == outputs,
            index < before.edges.len() && before.edges[index as int].len() == outputs
                ==> after.edges[index as int] == before.edges[index as int],
            !(index < before.edges.len() && before.edges[index as int].len() == outputs)
                ==> forall|p: int| 0 <= p < outputs ==> (#[trigger] after.edges[index as int][p]).len() == 0,
            forall|n: int|
                0 <= n < before.nodes.len() && n != index ==> {
                    &&& (#[trigger] after.nodes[n]) == before.nodes[n]
                    &&& after.edges[n] == before.edges[n]
                    &&& after.shape[n] == before.shape[n]
                },
            forall|n: int|
                before.nodes.len() <= n < after.nodes.len() && n != index ==> {
                    &&& (#[trigger] after.nodes[n]).len() == 0
                    &&& after.edges[n].len() == 0
                    &&& after.shape[n] == (0usize, 0usize)
                },
        ensures
            after.wf(),
    {
        let nv = nodes_view(after.nodes);
        let ev = edges_view(after.edges);
        let nv0 = nodes_view(before.nodes);
        let ev0 = edges_view(before.edges);
        assert forall|n: int, i: int| 0 <= n < nv.len() && 0 <= i < nv[n].len() implies (
        #[trigger] nv[n][i]).len() == ev[n].len() by {
            if n == index {
                assert(after.nodes[index as int][i].len() == outputs);
            } else if n < before.nodes.len() {
                assert(after.nodes[n] == before.nodes[n]);
                assert(nv[n] == nv0[n]);
                assert(ev[n] == ev0[n]);
                assert(nv0[n][i].len() == ev0[n].len());
            } else {
                assert(after.nodes[n].len() == 0);
            }
        }
        assert forall|n: int, p: int, k: int|
            0 <= n < ev.len() && 0 <= p < ev[n].len() && 0 <= k < ev[n][p].len() implies is_port(
            nv,
            ev,
            Location::of_target(#[trigger] ev[n][p][k]),
        ) by {
            let t = ev[n][p][k];
            if n != index && n >= before.nodes.len() {
                assert(after.nodes[n].len() == 0);
                assert(false);
            }
            if n == index && !(index < before.edges.len() && before.edges[index as int].len() == outputs) {
                assert(after.edges[index as int][p].len() == 0);
                assert(false);
            }
            if n != index {
                assert(after.nodes[n] == before.nodes[n]);
            }
            assert(after.edges[n] == before.edges[n]);
            assert(ev0[n][p][k] == before.edges[n][p][k]);
            assert(t == before.edges[n][p][k]);
            assert(is_port(nv0, ev0, Location::of_target(ev0[n][p][k])));
            assert(t.node < nv0.len());
            if t.node != index {
                assert(after.nodes[t.node as int] == before.nodes[t.node as int]);
                assert(nv[t.node as int].len() == nv0[t.node as int].len());
            } else {
                assert(t.port < inputs);
                assert(nv[t.node as int].len() == inputs);
            }
        }
        assert forall|n: int| 0 <= n < after.shape.len() implies (#[trigger] after.shape[n]) == (
            after.nodes[n].len(),
            after.edges[n].len(),
        ) by {
            if n == index {
            } else if n < before.nodes.len() {
                assert(after.nodes[n] == before.nodes[n]);
                assert(before.shape[n] == (before.nodes[n].len(), before.edges[n].len()));
            } else {
                assert(after.nodes[n].len() == 0);
            }
        }
    }

    /// Compiles the description into a tracker in which nothing is held yet,
    /// and gives with it the summaries of the paths from each input of the scope
    /// (the output ports of node 0) to each of its outputs.
    pub fn build(&self) -> (r: (Tracker<T>, Vec<Vec<Antichain<T::Summary>>>))
        requires
            self.wf(),
            self.nodes.len() > 0,
        ensures
            r.0.wf(),
            r.0.plan().nodes == nodes_view(self.nodes),
            r.0.plan().edges == edges_view(self.edges),
            forall|l: Location|
                r.0.plan().has(l) ==> #[trigger] r.0.plan().summaries[l] == if l.node == 0 {
                    Seq::<Seq<T::Summary>>::empty()
                } else {
                    surveyed::<T>(nodes_view(self.nodes), edges_view(self.edges))[l]
                },
            crate::summarize::antichains(
                nodes_view(self.nodes),
                edges_view(self.edges),
                surveyed::<T>(nodes_view(self.nodes), edges_view(self.edges)),
            ),
            r.0.ledger() == blank_ledger::<T>(nodes_view(self.nodes), edges_view(self.edges)),
            r.0.in_balance(),
            r.0.buffered_targets() == Seq::<((Target, T), i64)>::empty(),
            r.0.buffered_sources() == Seq::<((Source, T), i64)>::empty(),
            r.1.len() == self.edges[0].len(),
            forall|p: int|
                0 <= p < r.1.len() ==> row_view(#[trigger] r.1[p]) == surveyed::<T>(
                    nodes_view(self.nodes),
                    edges_view(self.edges),
                )[Location { node: 0, port: Port::Source(p as usize) }],
    {
        Tracker::allocate_from(self)
    }

    /// Whether no location of the graph passes timestamps back to itself as
    /// they are: along edges, and inside nodes along summaries of the empty
    /// path. Summaries that change timestamps are taken to move them forward, and
    /// do not count.
    pub fn is_acyclic(&self) -> (r: bool)
        requires
            self.wf(),
            degrees_fit(nodes_view(self.nodes), edges_view(self.edges), T::Summary::identity()),
        ensures
            r == !has_cycle(nodes_view(self.nodes), edges_view(self.edges), T::Summary::identity()),
    {
        let ghost nv = nodes_view(self.nodes);
        let ghost ev = edges_view(self.edges);
        let ghost unit = T::Summary::identity();
        let ghost none = Set::<Location>::empty();
        proof {
            lemma_views_sized(self.nodes, self.edges);
            assert forall|m: int, q: int|
                0 <= m < self.nodes.len() && 0 <= q < self.nodes[m].len() implies #[trigger] all_into(
                ev,
                Set::empty(),
                Target { node: m as usize, port: q as usize },
                self.edges.len() as int,
            ) <= usize::MAX by {
                let l = Location { node: m as usize, port: Port::Target(q as usize) };
                assert(nv[m].len() == self.nodes[m].len());
                assert(is_port(nv, ev, l));
                assert(in_degree(nv, ev, unit, Set::empty(), l) <= usize::MAX);
            }
        }
        let mut deg_t = count_edges(&self.nodes, &self.edges);
        let mut deg_s: Vec<Vec<usize>> = Vec::new();
        let mut n: usize = 0;
        while n < self.nodes.len()
            invariant
                0 <= n <= self.nodes.len(),
                self.wf(),
                nv == nodes_view(self.nodes),
                ev == edges_view(self.edges),
                unit == T::Summary::identity(),
                none == Set::<Location>::empty(),
                degrees_fit(nv, ev, unit),
                deg_s.len() == n,
                forall|m: int| 0 <= m < n ==> (#[trigger] deg_s[m]).len() == self.edges[m].len(),
                forall|m: int, j: int|
                    0 <= m < n && 0 <= j < deg_s[m].len() ==> (#[trigger] deg_s[m][j]) == into_source(
                        nv[m],
                        none,
                        m,
                        j,
                        nv[m].len() as int,
                        unit,
                    ),
            decreases self.nodes.len() - n,
        {
            proof {
                assert(nv[n as int] == node_view(self.nodes[n as int]));
                assert forall|i: int| 0 <= i < self.nodes[n as int].len() implies (
                #[trigger] self.nodes[n as int][i]).len() == self.edges[n as int].len() by {
                    assert(nv[n as int][i].len() == ev[n as int].len());
                }
                assert forall|j: int| 0 <= j < self.edges[n as int].len() implies #[trigger] into_source(
                    node_view(self.nodes[n as int]),
                    Set::empty(),
                    0,
                    j,
                    self.nodes[n as int].len() as int,
                    unit,
                ) <= usize::MAX by {
                    let l = Location { node: n, port: Port::Source(j as usize) };
                    assert(ev[n as int].len() == self.edges[n as int].len());
                    assert(is_port(nv, ev, l));
                    assert(in_degree(nv, ev, unit, Set::empty(), l) <= usize::MAX);
                    lemma_source_anywhere(nv[n as int], n as int, 0, j, nv[n as int].len() as int, unit);
                }
            }
            let row = count_defaults::<T>(&self.nodes[n], self.edges[n].len());
            proof {
                assert forall|j: int| 0 <= j < row.len() implies (#[trigger] row[j]) == into_source(
                    nv[n as int],
                    none,
                    n as int,
                    j,
                    nv[n as int].len() as int,
                    unit,
                ) by {
                    lemma_source_anywhere(nv[n as int], n as int, 0, j, nv[n as int].len() as int, unit);
                }
            }
            deg_s.push(row);
            n += 1;
        }
        let mut work = zero_ports(&deg_t, &deg_s);
        let ghost mut gone = Set::<Location>::empty();
        let ghost mut order = Seq::<Location>::empty();
        let ghost ports = port_list(nv, ev, nv.len() as int);
        let ghost all = ports.to_set();
        proof {
            vstd::seq_lib::seq_to_set_is_finite(ports);
            assert forall|m: int| 0 <= m < deg_t.len() implies (#[trigger] deg_t[m]).len()
                == nv[m].len() by {
                assert(nv[m].len() == self.nodes[m].len());
            }
            assert forall|m: int| 0 <= m < deg_s.len() implies (#[trigger] deg_s[m]).len()
                == ev[m].len() by {
                assert(ev[m].len() == self.edges[m].len());
            }
            assert forall|l: Location| is_port(nv, ev, l) implies #[trigger] tally(deg_t, deg_s, l)
                == in_degree(nv, ev, unit, gone, l) by {
                match l.port {
                    Port::Target(q) => {
                        assert(deg_t[l.node as int][q as int] == all_into(
                            ev,
                            Set::empty(),
                            Target { node: l.node as int as usize, port: q as int as usize },
                            self.edges.len() as int,
                        ));
                    },
                    Port::Source(j) => {
                        assert(deg_s[l.node as int][j as int] == into_source(
                            nv[l.node as int],
                            none,
                            l.node as int,
                            j as int,
                            nv[l.node as int].len() as int,
                            unit,
                        ));
                    },
                }
            }
            assert forall|a: int| 0 <= a < work@.len() implies tabled(deg_t, deg_s, #[trigger] work@[a])
                && tally(deg_t, deg_s, work@[a]) == 0 by {
                assert(work@.contains(work@[a]));
            }
        }
        loop
            invariant
                self.wf(),
                nv == nodes_view(self.nodes),
                ev == edges_view(self.edges),
                unit == T::Summary::identity(),
                sized(nv, ev),
                ports == port_list(nv, ev, nv.len() as int),
                all == ports.to_set(),
                all.finite(),
                tables_fit(nv, ev, deg_t, deg_s),
                forall|l: Location|
                    is_port(nv, ev, l) ==> #[trigger] tally(deg_t, deg_s, l) == in_degree(
                        nv,
                        ev,
                        unit,
                        gone,
                        l,
                    ),
                zeros_listed(deg_t, deg_s, work@),
                forall|a: int| 0 <= a < work@.len() ==> !gone.contains(#[trigger] work@[a]),
                forall|l: Location| #[trigger]
                    gone.contains(l) ==> is_port(nv, ev, l) && tally(deg_t, deg_s, l) == 0,
                forall|l: Location|
                    is_port(nv, ev, l) && #[trigger] tally(deg_t, deg_s, l) == 0 ==> gone.contains(l)
                        || work@.contains(l),
                order.no_duplicates(),
                forall|l: Location| gone.contains(l) <==> order.contains(l),
                sorted_by_arcs(nv, ev, unit, order),
                gone.finite(),
                gone.subset_of(all),
            ensures
                tables_fit(nv, ev, deg_t, deg_s),
                forall|l: Location|
                    is_port(nv, ev, l) ==> #[trigger] tally(deg_t, deg_s, l) == in_degree(
                        nv,
                        ev,
                        unit,
                        gone,
                        l,
                    ),
                forall|l: Location| #[trigger]
                    gone.contains(l) ==> is_port(nv, ev, l) && tally(deg_t, deg_s, l) == 0,
                forall|l: Location|
                    is_port(nv, ev, l) && #[trigger] tally(deg_t, deg_s, l) == 0 ==> gone.contains(l),
                order.no_duplicates(),
                forall|l: Location| gone.contains(l) <==> order.contains(l),
                sorted_by_arcs(nv, ev, unit, order),
            decreases all.len() - gone.len(),
        {
            let ghost before = work@;
            let ghost gone0 = gone;
            let ghost order0 = order;
            let ghost dt0 = deg_t;
            let ghost ds0 = deg_s;
            match work.pop() {
                None => {
                    break ;
                },
                Some(location) => {
                    let ghost rest = work@;
                    proof {
                        assert(location == before[before.len() - 1]);
                        assert(before.contains(location));
                        assert(is_port(nv, ev, location));
                        assert(tally(dt0, ds0, location) == 0);
                        assert(!gone0.contains(location));
                        lemma_degree_zero(nv, ev, unit, gone0, location);
                        gone = gone0.insert(location);
                        order = order0.push(location);
                        lemma_port_list(nv, ev, nv.len() as int, location);
                        vstd::set_lib::lemma_len_subset(gone, all);
                        assert forall|l: Location| gone.contains(l) <==> order.contains(l) by {
                            lemma_push_contains(order0, location, l);
                        }
                        assert(order.no_duplicates()) by {
                            assert forall|a: int, b: int|
                                0 <= a < order.len() && 0 <= b < order.len() && a != b implies order[a]
                                != order[b] by {
                                if a == order0.len() {
                                    assert(order0[b] == order[b]);
                                    assert(order0.contains(order0[b]));
                                } else if b == order0.len() {
                                    assert(order0[a] == order[a]);
                                    assert(order0.contains(order0[a]));
                                } else {
                                    assert(order0[a] == order[a] && order0[b] == order[b]);
                                }
                            }
                        }
                        assert forall|idx: int, u: Location|
                            0 <= idx < order.len() && arc(
                                nv,
                                ev,
                                unit,
                                u,
                                order[idx],
                            ) implies #[trigger] earlier(order, u, idx) by {
                            if idx < order0.len() {
                                assert(order[idx] == order0[idx]);
                                assert(earlier(order0, u, idx));
                                let a = choose|a: int| 0 <= a < idx && order0[a] == u;
                                assert(order[a] == u);
                            } else {
                                assert(gone0.contains(u));
                                assert(order0.contains(u));
                                let a = order0.index_of(u);
                                assert(order[a] == u);
                            }
                        }
                        assert forall|a: int| 0 <= a < rest.len() implies rest[a] != location
                            && !gone.contains(#[trigger] rest[a]) by {
                            assert(rest[a] == before[a]);
                        }
                        assert(zeros_listed(deg_t, deg_s, rest)) by {
                            assert forall|a: int| 0 <= a < rest.len() implies tabled(
                                deg_t,
                                deg_s,
                                #[trigger] rest[a],
                            ) && tally(deg_t, deg_s, rest[a]) == 0 by {
                                assert(rest[a] == before[a]);
                            }
                            assert forall|a: int, b: int|
                                0 <= a < rest.len() && 0 <= b < rest.len() && a != b implies rest[a]
                                != rest[b] by {
                                assert(rest[a] == before[a] && rest[b] == before[b]);
                            }
                        }
                    }
                    match location.port {
                        Port::Source(port) => {
                            proof {
                                let targets = self.edges[location.node as int][port as int];
                                assert(targets@ == ev[location.node as int][port as int]);
                                assert(source_at(location.node as int, port as int) == location);
                                assert forall|k: int| 0 <= k < targets.len() implies tabled(
                                    deg_t,
                                    deg_s,
                                    Location::of_target(#[trigger] targets[k]),
                                ) by {
                                    assert(targets[k] == ev[location.node as int][port as int][k]);
                                    assert(is_port(nv, ev, Location::of_target(targets[k])));
                                }
                                assert forall|m: int, q: int|
                                    0 <= m < deg_t.len() && 0 <= q < deg_t[m].len() implies (
                                #[trigger] deg_t[m][q]) == in_degree(
                                    nv,
                                    ev,
                                    unit,
                                    gone,
                                    Location { node: m as usize, port: Port::Target(q as usize) },
                                ) + hits(
                                    targets@,
                                    targets.len() as int,
                                    Target { node: m as usize, port: q as usize },
                                ) by {
                                    let l = Location { node: m as usize, port: Port::Target(q as usize) };
                                    assert(is_port(nv, ev, l));
                                    assert(tally(deg_t, deg_s, l) == in_degree(nv, ev, unit, gone0, l));
                                    lemma_all_without_source(
                                        ev,
                                        gone0,
                                        Target { node: m as usize, port: q as usize },
                                        ev.len() as int,
                                        location.node as int,
                                        port as int,
                                    );
                                }
                            }
                            release_targets(
                                &self.edges[location.node][port],
                                &mut deg_t,
                                &deg_s,
                                &mut work,
                            );
                            proof {
                                assert forall|l: Location| is_port(nv, ev, l) implies #[trigger] tally(
                                    deg_t,
                                    deg_s,
                                    l,
                                ) == in_degree(nv, ev, unit, gone, l) by {
                                    match l.port {
                                        Port::Target(q) => {
                                            assert(deg_t[l.node as int][q as int] == dt0[l.node as int][q as int]
                                                - hits(
                                                self.edges[location.node as int][port as int]@,
                                                self.edges[location.node as int][port as int].len() as int,
                                                Target { node: l.node as int as usize, port: q as int as usize },
                                            ));
                                        },
                                        Port::Source(j) => {
                                            assert(tally(dt0, ds0, l) == in_degree(nv, ev, unit, gone0, l));
                                            lemma_into_source_frame(
                                                nv[l.node as int],
                                                gone0,
                                                gone,
                                                l.node as int,
                                                j as int,
                                                nv[l.node as int].len() as int,
                                                unit,
                                            );
                                        },
                                    }
                                }
                            }
                        },
                        Port::Target(port) => {
                            proof {
                                let row = self.nodes[location.node as int][port as int];
                                assert(target_at(location.node as int, port as int) == location);
                                assert(nv[location.node as int][port as int].len()
                                    == ev[location.node as int].len());
                                assert forall|j: int| 0 <= j < row.len() implies (
                                #[trigger] deg_s[location.node as int][j]) == in_degree(
                                    nv,
                                    ev,
                                    unit,
                                    gone,
                                    Location { node: location.node, port: Port::Source(j as usize) },
                                ) + units(row[j]@, row[j]@.len() as int, unit) by {
                                    let l = Location { node: location.node, port: Port::Source(j as usize) };
                                    assert(is_port(nv, ev, l));
                                    assert(tally(deg_t, deg_s, l) == in_degree(nv, ev, unit, gone0, l));
                                    assert(row[j]@ == nv[location.node as int][port as int][j]);
                                    lemma_source_without_target(
                                        nv[location.node as int],
                                        gone0,
                                        location.node as int,
                                        j,
                                        nv[location.node as int].len() as int,
                                        location.node as int,
                                        port as int,
                                        unit,
                                    );
                                }
                            }
                            release_sources::<T>(
                                &self.nodes[location.node][port],
                                location.node,
                                &deg_t,
                                &mut deg_s,
                                &mut work,
                            );
                            proof {
                                let row = self.nodes[location.node as int][port as int];
                                assert forall|l: Location| is_port(nv, ev, l) implies #[trigger] tally(
                                    deg_t,
                                    deg_s,
                                    l,
                                ) == in_degree(nv, ev, unit, gone, l) by {
                                    assert(tally(dt0, ds0, l) == in_degree(nv, ev, unit, gone0, l));
                                    match l.port {
                                        Port::Target(q) => {
                                            lemma_all_into_frame(
                                                ev,
                                                gone0,
                                                gone,
                                                Target { node: l.node, port: q },
                                                ev.len() as int,
                                            );
                                        },
                                        Port::Source(j) => {
                                            if l.node == location.node {
                                                assert(deg_s[location.node as int][j as int]
                                                    == ds0[location.node as int][j as int] - units(
                                                    row[j as int]@,
                                                    row[j as int]@.len() as int,
                                                    unit,
                                                ));
                                                assert(ds0[location.node as int][j as int] == in_degree(
                                                    nv,
                                                    ev,
                                                    unit,
                                                    gone,
                                                    Location {
                                                        node: location.node,
                                                        port: Port::Source(j as int as usize),
                                                    },
                                                ) + units(row[j as int]@, row[j as int]@.len() as int, unit));
                                            } else {
                                                assert(deg_s[l.node as int] == ds0[l.node as int]);
                                                lemma_source_without_target(
                                                    nv[l.node as int],
                                                    gone0,
                                                    l.node as int,
                                                    j as int,
                                                    nv[l.node as int].len() as int,
                                                    location.node as int,
                                                    port as int,
                                                    unit,
                                                );
                                            }
                                        },
                                    }
                                }
                            }
                        },
                    }
                    proof {
                        assert forall|l: Location| is_port(nv, ev, l) implies tabled(dt0, ds0, l) && tally(
                            deg_t,
                            deg_s,
                            l,
                        ) <= tally(dt0, ds0, l) by {
                            assert(tally(deg_t, deg_s, l) == in_degree(nv, ev, unit, gone, l));
                            assert(tally(dt0, ds0, l) == in_degree(nv, ev, unit, gone0, l));
                            match l.port {
                                Port::Target(q) => {
                                    if location.port is Source {
                                        lemma_all_without_source(
                                            ev,
                                            gone0,
                                            Target { node: l.node, port: q },
                                            ev.len() as int,
                                            location.node as int,
                                            location.port->Source_0 as int,
                                        );
                                        assert(source_at(
                                            location.node as int,
                                            location.port->Source_0 as int,
                                        ) == location);
                                    } else {
                                        lemma_all_into_frame(
                                            ev,
                                            gone0,
                                            gone,
                                            Target { node: l.node, port: q },
                                            ev.len() as int,
                                        );
                                    }
                                },
                                Port::Source(j) => {
                                    if location.port is Target {
                                        lemma_source_without_target(
                                            nv[l.node as int],
                                            gone0,
                                            l.node as int,
                                            j as int,
                                            nv[l.node as int].len() as int,
                                            location.node as int,
                                            location.port->Target_0 as int,
                                            unit,
                                        );
                                        assert(target_at(
                                            location.node as int,
                                            location.port->Target_0 as int,
                                        ) == location);
                                    } else {
                                        lemma_into_source_frame(
                                            nv[l.node as int],
                                            gone0,
                                            gone,
                                            l.node as int,
                                            j as int,
                                            nv[l.node as int].len() as int,
                                            unit,
                                        );
                                    }
                                },
                            }
                        }
                        assert forall|a: int| 0 <= a < work@.len() implies !gone.contains(
                            #[trigger] work@[a],
                        ) by {
                            let l = work@[a];
                            assert(work@.contains(l));
                            if rest.contains(l) {
                                let b = rest.index_of(l);
                                assert(!gone.contains(rest[b]));
                            } else {
                                assert(tally(dt0, ds0, l) != 0);
                            }
                        }
                        assert forall|l: Location| #[trigger] gone.contains(l) implies is_port(nv, ev, l)
                            && tally(deg_t, deg_s, l) == 0 by {
                            assert(tally(dt0, ds0, l) == 0);
                            assert(is_port(nv, ev, l));
                        }
                        assert forall|l: Location|
                            is_port(nv, ev, l) && #[trigger] tally(deg_t, deg_s, l)
                                == 0 implies gone.contains(l) || work@.contains(l) by {
                            if tally(dt0, ds0, l) == 0 {
                                if !gone0.contains(l) {
                                    assert(before.contains(l));
                                    let b = before.index_of(l);
                                    if b < rest.len() {
                                        assert(rest[b] == l);
                                        assert(rest.contains(l));
                                    }
                                }
                            }
                        }
                    }
                },
            }
        }
        let r = all_zero(&deg_t, &deg_s);
        proof {
            if r {
                assert forall|l: Location| is_port(nv, ev, l) implies order.contains(l) by {
                    assert(tabled(deg_t, deg_s, l));
                    assert(tally(deg_t, deg_s, l) == 0);
                    assert(gone.contains(l));
                }
                lemma_order_no_cycle(nv, ev, unit, order);
            } else {
                let v0 = choose|l: Location| tabled(deg_t, deg_s, l) && tally(deg_t, deg_s, l) != 0;
                assert(is_port(nv, ev, v0));
                assert forall|v: Location| #[trigger] is_port(nv, ev, v) && !gone.contains(v) implies exists|
                    u: Location,
                | #[trigger] arc(nv, ev, unit, u, v) && !gone.contains(u) by {
                    assert(tally(deg_t, deg_s, v) != 0);
                    assert(in_degree(nv, ev, unit, gone, v) != 0);
                    lemma_degree_zero(nv, ev, unit, gone, v);
                }
                assert(stuck(nv, ev, unit, gone)) by {
                    reveal(stuck);
                }
                lemma_stuck_cycle(nv, ev, unit, gone, v0);
            }
        }
        r
    }

    /// Adds an edge from the output port `source` to the input port `target`.
    pub fn add_edge(&mut self, source: Source, target: Target)
        requires
            source.node < old(self).edges.len(),
            source.port < old(self).edges[source.node as int].len(),
            source.node < old(self).shape.len(),
            source.port < old(self).shape[source.node as int].1,
            target.node < old(self).shape.len(),
            target.port < old(self).shape[target.node as int].0,
        ensures
            final(self).nodes == old(self).nodes,
            final(self).shape == old(self).shape,
            final(self).edges.len() == old(self).edges.len(),
            final(self).edges[source.node as int].len() == old(self).edges[source.node as int].len(),
            final(self).edges[source.node as int][source.port as int]@ == old(
                self,
            ).edges[source.node as int][source.port as int]@.push(target),
            forall|n: int|
                0 <= n < old(self).edges.len() && n != source.node ==> (
                #[trigger] final(self).edges[n]) == old(self).edges[n],
            forall|p: int|
                0 <= p < old(self).edges[source.node as int].len() && p != source.port ==> (
                #[trigger] final(self).edges[source.node as int][p]) == old(
                    self,
                ).edges[source.node as int][p],
            old(self).wf() ==> final(self).wf(),
    {
        self.edges[source.node][source.port].push(target);
        proof {
            if old(self).wf() {
                let nv = nodes_view(self.nodes);
                let ev = edges_view(self.edges);
                let ev0 = edges_view(old(self).edges);
                assert forall|n: int, i: int| 0 <= n < nv.len() && 0 <= i < nv[n].len() implies (
                #[trigger] nv[n][i]).len() == ev[n].len() by {
                    assert(ev[n].len() == ev0[n].len());
                }
                assert forall|n: int, p: int, k: int|
                    0 <= n < ev.len() && 0 <= p < ev[n].len() && 0 <= k < ev[n][p].len() implies is_port(
                    nv,
                    ev,
                    Location::of_target(#[trigger] ev[n][p][k]),
                ) by {
                    let t = ev[n][p][k];
                    assert(ev[t.node as int].len() == ev0[t.node as int].len()) by {
                        if n == source.node && p == source.port && k == ev[n][p].len() - 1 {
                            assert(t == target);
                        } else {
                            assert(t == ev0[n][p][k]);
                            assert(is_port(nv, ev0, Location::of_target(t)));
                        }
                    }
                    if !(n == source.node && p == source.port && k == ev[n][p].len() - 1) {
                        assert(t == ev0[n][p][k]);
                        assert(is_port(nv, ev0, Location::of_target(t)));
                    }
                }
            }
        }
    }
}

} // verus!
