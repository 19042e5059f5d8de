//! The summaries of the paths from each port to the outputs of the scope.
//!
//! The outputs of the scope are the input ports of node 0. The summaries are
//! found by walking the graph backwards from them: across a node from an
//! output port to each of its input ports, and along the edge that leads to an
//! input port from the output port it comes from. Where several edges lead to
//! one input port, the walk follows the last of them only.
use vstd::prelude::*;
use std::collections::VecDeque;
use crate::order::{Timestamp, PathSummary, PartialOrder, Value};
use crate::antichain::{Antichain, dominated, inserted, incomparable, lemma_inserted_incomparable};
use crate::location::{Location, Port, Source, Target};
use crate::graph::{Nodes, Edges, shaped, is_port, edges_closed, nodes_view, edges_view, row_view};

verus! {

/// The state of the walk.
pub struct Survey<S> {
    /// For each port, by output of the scope, the summaries found so far.
    pub found: Map<Location, Seq<Seq<S>>>,
    /// The summaries found and not yet followed further back: the port, the
    /// output of the scope, and the summary. The first in is the first out.
    pub queue: Seq<(Location, usize, S)>,
}

/// `row` with empty antichains behind it, up to the length `n`.
pub open spec fn padded<S>(row: Seq<Seq<S>>, n: int) -> Seq<Seq<S>> {
    if row.len() >= n {
        row
    } else {
        row + Seq::new((n - row.len()) as nat, |i: int| Seq::<S>::empty())
    }
}

/// The state with room made at `loc` for the output `output`.
pub open spec fn prepared<S>(st: Survey<S>, loc: Location, output: usize) -> Survey<S> {
    Survey { found: st.found.insert(loc, padded(st.found[loc], output + 1)), ..st }
}

/// The state after the summary `s` from `loc` to the output `output` was
/// offered: where it enters the antichain there, it is queued.
pub open spec fn offered<S: PartialOrder>(st: Survey<S>, loc: Location, output: usize, s: S)
    -> Survey<S> {
    let row = st.found[loc];
    if dominated(row[output as int], s) {
        st
    } else {
        Survey {
            found: st.found.insert(
                loc,
                row.update(output as int, inserted(row[output as int], s)),
            ),
            queue: st.queue.push((loc, output, s)),
        }
    }
}

/// The state after a summary `s` from the output port `j` of `node` was
/// followed back across the node: to each input port from `i` on, along each
/// summary inside the node from `k` on.
pub open spec fn backed<T: Timestamp>(
    nodes: Seq<Seq<Seq<Seq<T::Summary>>>>,
    st: Survey<T::Summary>,
    node: usize,
    j: int,
    output: usize,
    s: T::Summary,
    i: int,
    k: int,
) -> Survey<T::Summary>
    decreases nodes[node as int].len() - i, (if 0 <= i < nodes[node as int].len() {
        nodes[node as int][i][j].len() - k
    } else {
        0
    }),
{
    if 0 <= i < nodes[node as int].len() {
        let loc = Location { node, port: Port::Target(i as usize) };
        let ready = prepared(st, loc, output);
        if 0 <= k < nodes[node as int][i][j].len() {
            let next = match nodes[node as int][i][j][k].compose(s) {
                Some(c) => offered(ready, loc, output, c),
                None => ready,
            };
            backed::<T>(nodes, next, node, j, output, s, i, k + 1)
        } else {
            backed::<T>(nodes, ready, node, j, output, s, i + 1, 0)
        }
    } else {
        st
    }
}

/// For each input port that an edge from `edges[n][p][k]` on leads to, the
/// output port of the last such edge; `acc` for the others.
pub open spec fn feeders(
    edges: Seq<Seq<Seq<Target>>>,
    n: int,
    p: int,
    k: int,
    acc: Map<Location, Source>,
) -> Map<Location, Source>
    decreases edges.len() - n, (if 0 <= n < edges.len() { edges[n].len() - p } else { 0 }), (if 0
        <= n < edges.len() && 0 <= p < edges[n].len() { edges[n][p].len() - k } else { 0 }),
{
    if 0 <= n < edges.len() {
        if 0 <= p < edges[n].len() {
            if 0 <= k < edges[n][p].len() {
                feeders(
                    edges,
                    n,
                    p,
                    k + 1,
                    acc.insert(
                        Location::of_target(edges[n][p][k]),
                        Source { node: n as usize, port: p as usize },
                    ),
                )
            } else {
                feeders(edges, n, p + 1, 0, acc)
            }
        } else {
            feeders(edges, n + 1, 0, 0, acc)
        }
    } else {
        acc
    }
}

/// `acc` and, for each edge from `edges[n][p][k]` on that leads to an input
/// port of node 0, that port with its index and the summary `unit`.
pub open spec fn exits<S>(
    edges: Seq<Seq<Seq<Target>>>,
    n: int,
    p: int,
    k: int,
    acc: Seq<(Location, usize, S)>,
    unit: S,
) -> Seq<(Location, usize, S)>
    decreases edges.len() - n, (if 0 <= n < edges.len() { edges[n].len() - p } else { 0 }), (if 0
        <= n < edges.len() && 0 <= p < edges[n].len() { edges[n][p].len() - k } else { 0 }),
{
    if 0 <= n < edges.len() {
        if 0 <= p < edges[n].len() {
            if 0 <= k < edges[n][p].len() {
                let t = edges[n][p][k];
                exits(
                    edges,
                    n,
                    p,
                    k + 1,
                    if t.node == 0 {
                        acc.push((Location::of_target(t), t.port, unit))
                    } else {
                        acc
                    },
                    unit,
                )
            } else {
                exits(edges, n, p + 1, 0, acc, unit)
            }
        } else {
            exits(edges, n + 1, 0, 0, acc, unit)
        }
    } else {
        acc
    }
}

/// One step of the walk: the first summary of the queue is followed one hop
/// further back. With an empty queue the state stays.
pub open spec fn survey_step<T: Timestamp>(
    nodes: Seq<Seq<Seq<Seq<T::Summary>>>>,
    reverse: Map<Location, Source>,
    st: Survey<T::Summary>,
) -> Survey<T::Summary> {
    if st.queue.len() == 0 {
        st
    } else {
        let (loc, output, s) = st.queue[0];
        let rest = Survey { queue: st.queue.subrange(1, st.queue.len() as int), ..st };
        match loc.port {
            Port::Source(j) => backed::<T>(nodes, rest, loc.node, j as int, output, s, 0, 0),
            Port::Target(_) => if reverse.dom().contains(loc) {
                let from = Location::of_source(reverse[loc]);
                offered(prepared(rest, from, output), from, output, s)
            } else {
                rest
            },
        }
    }
}

/// The state after `n` steps of the walk.
pub open spec fn survey_run<T: Timestamp>(
    nodes: Seq<Seq<Seq<Seq<T::Summary>>>>,
    reverse: Map<Location, Source>,
    st: Survey<T::Summary>,
    n: nat,
) -> Survey<T::Summary>
    decreases n,
{
    if n == 0 {
        st
    } else {
        survey_step::<T>(nodes, reverse, survey_run::<T>(nodes, reverse, st, (n - 1) as nat))
    }
}

/// The state in which the walk starts: nothing found, and each output of the
/// scope that an edge leads to queued with the summary of the empty path.
pub open spec fn survey_start<T: Timestamp>(
    nodes: Seq<Seq<Seq<Seq<T::Summary>>>>,
    edges: Seq<Seq<Seq<Target>>>,
) -> Survey<T::Summary> {
    Survey {
        found: Map::new(
            |l: Location| is_port(nodes, edges, l),
            |l: Location| Seq::<Seq<T::Summary>>::empty(),
        ),
        queue: exits(edges, 0, 0, 0, Seq::empty(), T::Summary::identity()),
    }
}

/// After `n` steps of the walk over the graph its queue is empty.
pub open spec fn surveyed_after<T: Timestamp>(
    nodes: Seq<Seq<Seq<Seq<T::Summary>>>>,
    edges: Seq<Seq<Seq<Target>>>,
    n: nat,
) -> bool {
    survey_run::<T>(
        nodes,
        feeders(edges, 0, 0, 0, Map::empty()),
        survey_start::<T>(nodes, edges),
        n,
    ).queue.len() == 0
}

/// The walk over the graph comes to an end.
pub open spec fn survey_ends<T: Timestamp>(
    nodes: Seq<Seq<Seq<Seq<T::Summary>>>>,
    edges: Seq<Seq<Seq<Target>>>,
) -> bool {
    exists|n: nat| surveyed_after::<T>(nodes, edges, n)
}

/// For each port of the graph, by output of the scope, the summaries of the
/// paths from the port to that output that the walk finds.
pub open spec fn surveyed<T: Timestamp>(
    nodes: Seq<Seq<Seq<Seq<T::Summary>>>>,
    edges: Seq<Seq<Seq<Target>>>,
) -> Map<Location, Seq<Seq<T::Summary>>> {
    survey_run::<T>(
        nodes,
        feeders(edges, 0, 0, 0, Map::empty()),
        survey_start::<T>(nodes, edges),
        choose|n: nat| surveyed_after::<T>(nodes, edges, n),
    ).found
}

/// The state fits the graph: summaries are held for exactly the ports, to no
/// more outputs than the scope has, and what is queued is at ports and for
/// outputs of the scope.
pub open spec fn survey_fits<S>(
    nodes: Seq<Seq<Seq<Seq<S>>>>,
    edges: Seq<Seq<Seq<Target>>>,
    st: Survey<S>,
) -> bool {
    &&& forall|l: Location| is_port(nodes, edges, l) <==> #[trigger] st.found.dom().contains(l)
    &&& forall|l: Location| is_port(nodes, edges, l) ==> (#[trigger] st.found[l]).len() <= nodes[0].len()
    &&& forall|i: int|
        0 <= i < st.queue.len() ==> is_port(nodes, edges, (#[trigger] st.queue[i]).0)
            && st.queue[i].1 < nodes[0].len()
}

/// The summaries found for each port and output are pairwise incomparable.
pub open spec fn antichains<S: PartialOrder>(
    nodes: Seq<Seq<Seq<Seq<S>>>>,
    edges: Seq<Seq<Seq<Target>>>,
    found: Map<Location, Seq<Seq<S>>>,
) -> bool {
    forall|l: Location, o: int|
        is_port(nodes, edges, l) && 0 <= o < found[l].len() ==> incomparable(#[trigger] found[l][o])
}

/// Every feeder is an output port of the graph.
pub open spec fn feeders_fit<S>(
    nodes: Seq<Seq<Seq<Seq<S>>>>,
    edges: Seq<Seq<Seq<Target>>>,
    reverse: Map<Location, Source>,
) -> bool {
    forall|l: Location| #[trigger]
        reverse.dom().contains(l) ==> is_port(nodes, edges, Location::of_source(reverse[l]))
}

/// Making room and offering keep a state fit.
pub proof fn lemma_offered_fits<S: PartialOrder>(
    nodes: Seq<Seq<Seq<Seq<S>>>>,
    edges: Seq<Seq<Seq<Target>>>,
    st: Survey<S>,
    loc: Location,
    output: usize,
    s: S,
)
    requires
        survey_fits(nodes, edges, st),
        is_port(nodes, edges, loc),
        output < nodes[0].len(),
    ensures
        antichains(nodes, edges, st.found) ==> antichains(nodes, edges, prepared(st, loc, output).found)
            && antichains(nodes, edges, offered(prepared(st, loc, output), loc, output, s).found),
        survey_fits(nodes, edges, prepared(st, loc, output)),
        prepared(st, loc, output).found[loc].len() > output,
        survey_fits(nodes, edges, offered(prepared(st, loc, output), loc, output, s)),
        offered(prepared(st, loc, output), loc, output, s).found[loc].len() > output,
        prepared(prepared(st, loc, output), loc, output) == prepared(st, loc, output),
        prepared(offered(prepared(st, loc, output), loc, output, s), loc, output) == offered(
            prepared(st, loc, output),
            loc,
            output,
            s,
        ),
{
    let ready = prepared(st, loc, output);
    assert(ready.found.insert(loc, padded(ready.found[loc], output + 1)) =~= ready.found);
    let next = offered(ready, loc, output, s);
    assert(next.found.insert(loc, padded(next.found[loc], output + 1)) =~= next.found);
    if antichains(nodes, edges, st.found) {
        assert forall|l: Location, o: int|
            is_port(nodes, edges, l) && 0 <= o < ready.found[l].len() implies incomparable(
            #[trigger] ready.found[l][o],
        ) by {
            if l == loc && o >= st.found[l].len() {
                assert(ready.found[l][o] =~= Seq::<S>::empty());
            } else {
                assert(ready.found[l][o] == st.found[l][o]);
            }
        }
        assert forall|l: Location, o: int|
            is_port(nodes, edges, l) && 0 <= o < next.found[l].len() implies incomparable(
            #[trigger] next.found[l][o],
        ) by {
            if l == loc && o == output {
                lemma_inserted_incomparable(ready.found[loc][output as int], s);
            } else {
                assert(next.found[l][o] == ready.found[l][o]);
            }
        }
    }
}

/// Following a summary back across a node keeps a state fit.
pub proof fn lemma_backed_fits<T: Timestamp>(
    nodes: Seq<Seq<Seq<Seq<T::Summary>>>>,
    edges: Seq<Seq<Seq<Target>>>,
    st: Survey<T::Summary>,
    node: usize,
    j: int,
    output: usize,
    s: T::Summary,
    i: int,
    k: int,
)
    requires
        survey_fits(nodes, edges, st),
        node < nodes.len(),
        node < edges.len(),
        output < nodes[0].len(),
        0 <= i,
        0 <= k,
    ensures
        survey_fits(nodes, edges, backed::<T>(nodes, st, node, j, output, s, i, k)),
        antichains(nodes, edges, st.found) ==> antichains(
            nodes,
            edges,
            backed::<T>(nodes, st, node, j, output, s, i, k).found,
        ),
    decreases nodes[node as int].len() - i, (if 0 <= i < nodes[node as int].len() {
        nodes[node as int][i][j].len() - k
    } else {
        0
    }),
{
    if i < nodes[node as int].len() {
        let loc = Location { node, port: Port::Target(i as usize) };
        let ready = prepared(st, loc, output);
        if k < nodes[node as int][i][j].len() {
            match nodes[node as int][i][j][k].compose(s) {
                Some(c) => {
                    lemma_offered_fits(nodes, edges, st, loc, output, c);
                    lemma_backed_fits::<T>(
                        nodes,
                        edges,
                        offered(ready, loc, output, c),
                        node,
                        j,
                        output,
                        s,
                        i,
                        k + 1,
                    );
                },
                None => {
                    lemma_offered_fits(nodes, edges, st, loc, output, s);
                    lemma_backed_fits::<T>(nodes, edges, ready, node, j, output, s, i, k + 1);
                },
            }
        } else {
            lemma_offered_fits(nodes, edges, st, loc, output, s);
            lemma_backed_fits::<T>(nodes, edges, ready, node, j, output, s, i + 1, 0);
        }
    }
}

/// A step of the walk keeps a state fit.
pub proof fn lemma_survey_step_fits<T: Timestamp>(
    nodes: Seq<Seq<Seq<Seq<T::Summary>>>>,
    edges: Seq<Seq<Seq<Target>>>,
    reverse: Map<Location, Source>,
    st: Survey<T::Summary>,
)
    requires
        survey_fits(nodes, edges, st),
        feeders_fit(nodes, edges, reverse),
    ensures
        survey_fits(nodes, edges, survey_step::<T>(nodes, reverse, st)),
        antichains(nodes, edges, st.found) ==> antichains(
            nodes,
            edges,
            survey_step::<T>(nodes, reverse, st).found,
        ),
{
    if st.queue.len() > 0 {
        let (loc, output, s) = st.queue[0];
        let rest = Survey { queue: st.queue.subrange(1, st.queue.len() as int), ..st };
        assert forall|i: int| 0 <= i < rest.queue.len() implies is_port(
            nodes,
            edges,
            (#[trigger] rest.queue[i]).0,
        ) && rest.queue[i].1 < nodes[0].len() by {
            assert(rest.queue[i] == st.queue[i + 1]);
        }
        match loc.port {
            Port::Source(j) => {
                lemma_backed_fits::<T>(nodes, edges, rest, loc.node, j as int, output, s, 0, 0);
            },
            Port::Target(_) => {
                if reverse.dom().contains(loc) {
                    let from = Location::of_source(reverse[loc]);
                    lemma_offered_fits(nodes, edges, rest, from, output, s);
                }
            },
        }
    }
}

/// Steps of the walk keep a state fit.
pub proof fn lemma_survey_run_fits<T: Timestamp>(
    nodes: Seq<Seq<Seq<Seq<T::Summary>>>>,
    edges: Seq<Seq<Seq<Target>>>,
    reverse: Map<Location, Source>,
    st: Survey<T::Summary>,
    n: nat,
)
    requires
        survey_fits(nodes, edges, st),
        feeders_fit(nodes, edges, reverse),
    ensures
        survey_fits(nodes, edges, survey_run::<T>(nodes, reverse, st, n)),
        antichains(nodes, edges, st.found) ==> antichains(
            nodes,
            edges,
            survey_run::<T>(nodes, reverse, st, n).found,
        ),
    decreases n,
{
    if n > 0 {
        lemma_survey_run_fits::<T>(nodes, edges, reverse, st, (n - 1) as nat);
        lemma_survey_step_fits::<T>(
            nodes,
            edges,
            reverse,
            survey_run::<T>(nodes, reverse, st, (n - 1) as nat),
        );
    }
}

/// Once the queue is empty, further steps change nothing.
pub proof fn lemma_survey_stays<T: Timestamp>(
    nodes: Seq<Seq<Seq<Seq<T::Summary>>>>,
    reverse: Map<Location, Source>,
    st: Survey<T::Summary>,
    i: nat,
    n: nat,
)
    requires
        survey_run::<T>(nodes, reverse, st, i).queue.len() == 0,
        i <= n,
    ensures
        survey_run::<T>(nodes, reverse, st, n) == survey_run::<T>(nodes, reverse, st, i),
    decreases n,
{
    if n > i {
        lemma_survey_stays::<T>(nodes, reverse, st, i, (n - 1) as nat);
    }
}

/// The feeders are output ports of a graph whose edges lead to its ports.
pub proof fn lemma_feeders_fit<S>(
    nodes: Seq<Seq<Seq<Seq<S>>>>,
    edges: Seq<Seq<Seq<Target>>>,
    n: int,
    p: int,
    k: int,
    acc: Map<Location, Source>,
)
    requires
        nodes.len() == edges.len(),
        edges.len() <= usize::MAX,
        forall|m: int| 0 <= m < edges.len() ==> (#[trigger] edges[m]).len() <= usize::MAX,
        feeders_fit(nodes, edges, acc),
        0 <= n,
        0 <= p,
        0 <= k,
    ensures
        feeders_fit(nodes, edges, feeders(edges, n, p, k, acc)),
    decreases edges.len() - n, (if 0 <= n < edges.len() { edges[n].len() - p } else { 0 }), (if 0
        <= n < edges.len() && 0 <= p < edges[n].len() { edges[n][p].len() - k } else { 0 }),
{
    if n < edges.len() {
        if p < edges[n].len() {
            if k < edges[n][p].len() {
                lemma_feeders_fit(
                    nodes,
                    edges,
                    n,
                    p,
                    k + 1,
                    acc.insert(
                        Location::of_target(edges[n][p][k]),
                        Source { node: n as usize, port: p as usize },
                    ),
                );
            } else {
                lemma_feeders_fit(nodes, edges, n, p + 1, 0, acc);
            }
        } else {
            lemma_feeders_fit(nodes, edges, n + 1, 0, 0, acc);
        }
    }
}

/// What is queued at the start is at ports, for outputs of the scope.
pub proof fn lemma_exits_fit<S>(
    nodes: Seq<Seq<Seq<Seq<S>>>>,
    edges: Seq<Seq<Seq<Target>>>,
    n: int,
    p: int,
    k: int,
    acc: Seq<(Location, usize, S)>,
    unit: S,
)
    requires
        edges_closed(nodes, edges),
        forall|i: int|
            0 <= i < acc.len() ==> is_port(nodes, edges, (#[trigger] acc[i]).0) && acc[i].1
                < nodes[0].len(),
        0 <= n,
        0 <= p,
        0 <= k,
    ensures
        forall|i: int|
            0 <= i < exits(edges, n, p, k, acc, unit).len() ==> is_port(
                nodes,
                edges,
                (#[trigger] exits(edges, n, p, k, acc, unit)[i]).0,
            ) && exits(edges, n, p, k, acc, unit)[i].1 < nodes[0].len(),
    decreases edges.len() - n, (if 0 <= n < edges.len() { edges[n].len() - p } else { 0 }), (if 0
        <= n < edges.len() && 0 <= p < edges[n].len() { edges[n][p].len() - k } else { 0 }),
{
    if n < edges.len() {
        if p < edges[n].len() {
            if k < edges[n][p].len() {
                let t = edges[n][p][k];
                assert(is_port(nodes, edges, Location::of_target(t)));
                let next = if t.node == 0 {
                    acc.push((Location::of_target(t), t.port, unit))
                } else {
                    acc
                };
                lemma_exits_fit(nodes, edges, n, p, k + 1, next, unit);
                assert(exits(edges, n, p, k, acc, unit) == exits(edges, n, p, k + 1, next, unit));
            } else {
                lemma_exits_fit(nodes, edges, n, p + 1, 0, acc, unit);
                assert(exits(edges, n, p, k, acc, unit) == exits(edges, n, p + 1, 0, acc, unit));
            }
        } else {
            lemma_exits_fit(nodes, edges, n + 1, 0, 0, acc, unit);
            assert(exits(edges, n, p, k, acc, unit) == exits(edges, n + 1, 0, 0, acc, unit));
        }
    } else {
        assert(exits(edges, n, p, k, acc, unit) == acc);
    }
}

/// Making room where there is room changes nothing.
pub proof fn lemma_prepared_same<S>(st: Survey<S>, loc: Location, output: usize)
    requires
        st.found.dom().contains(loc),
        st.found[loc].len() > output,
    ensures
        prepared(st, loc, output) == st,
{
    assert(st.found.insert(loc, padded(st.found[loc], output + 1)) =~= st.found);
}

/// For each port, by output of the scope, the summaries of the paths from the
/// port to that output.
pub struct OutputSummaries<S: PartialOrder + Value> {
    /// By node and input port.
    pub targets: Vec<Vec<Vec<Antichain<S>>>>,
    /// By node and output port.
    pub sources: Vec<Vec<Vec<Antichain<S>>>>,
}

impl<S: PartialOrder + Value> OutputSummaries<S> {
    /// `loc` is a port that summaries are held for.
    pub open spec fn holds(self, loc: Location) -> bool {
        match loc.port {
            Port::Target(i) => loc.node < self.targets.len() && i
                < self.targets[loc.node as int].len(),
            Port::Source(j) => loc.node < self.sources.len() && j
                < self.sources[loc.node as int].len(),
        }
    }

    /// The summaries held for the port `loc`, by output of the scope.
    pub open spec fn at(self, loc: Location) -> Vec<Antichain<S>> {
        match loc.port {
            Port::Target(i) => self.targets[loc.node as int][i as int],
            Port::Source(j) => self.sources[loc.node as int][j as int],
        }
    }

    /// The summaries held, by port and output of the scope.
    pub open spec fn found(self) -> Map<Location, Seq<Seq<S>>> {
        Map::new(|l: Location| self.holds(l), |l: Location| row_view(self.at(l)))
    }

    /// Summaries are held for exactly the ports of the graph.
    pub open spec fn matches(self, nodes: Seq<Seq<Seq<Seq<S>>>>, edges: Seq<Seq<Seq<Target>>>) -> bool {
        &&& self.targets.len() == nodes.len()
        &&& self.sources.len() == edges.len()
        &&& forall|n: int|
            0 <= n < self.targets.len() ==> (#[trigger] self.targets[n]).len() == nodes[n].len()
        &&& forall|n: int|
            0 <= n < self.sources.len() ==> (#[trigger] self.sources[n]).len() == edges[n].len()
    }
}

/// Extends `row` by empty antichains until it has an entry at `output`.
fn pad<S: PartialOrder + Value>(row: &mut Vec<Antichain<S>>, output: usize)
    requires
        output < usize::MAX,
    ensures
        row_view(*final(row)) == padded(row_view(*old(row)), output + 1),
        final(row).len() > output,
{
    while row.len() <= output
        invariant
            output < usize::MAX,
            row.len() >= old(row).len(),
            row.len() <= output + 1 || row.len() == old(row).len(),
            row_view(*row) =~= padded(row_view(*old(row)), row.len() as int),
        decreases output + 1 - row.len(),
    {
        let ghost before = row_view(*row);
        row.push(Antichain::new());
        proof {
            let first = row_view(*old(row));
            let grown = padded(first, row.len() as int);
            assert(before == padded(first, row.len() - 1));
            assert forall|a: int| 0 <= a < grown.len() implies row_view(*row)[a] == grown[a] by {
                if a < before.len() {
                    assert(row_view(*row)[a] == before[a]);
                    assert(before[a] == grown[a]);
                }
            }
        }
    }
    assert(row_view(*row) =~= padded(row_view(*old(row)), output + 1));
}

/// Offers `s` to the antichain of `row` at `output`. Returns whether it entered.
fn offer<S: PartialOrder + Value>(row: &mut Vec<Antichain<S>>, output: usize, s: S) -> (r: bool)
    requires
        output < old(row).len(),
    ensures
        r == !dominated(row_view(*old(row))[output as int], s),
        row_view(*final(row)) == row_view(*old(row)).update(
            output as int,
            inserted(row_view(*old(row))[output as int], s),
        ),
        final(row).len() == old(row).len(),
{
    let r = row[output].insert(s);
    assert(row_view(*row) =~= row_view(*old(row)).update(
        output as int,
        inserted(row_view(*old(row))[output as int], s),
    ));
    r
}

/// The state of the walk that `results` and `queue` make.
pub open spec fn survey_of<S: PartialOrder + Value>(
    results: OutputSummaries<S>,
    queue: VecDeque<(Location, usize, S)>,
) -> Survey<S> {
    Survey { found: results.found(), queue: queue@ }
}

/// Follows the summary `summary` from the output port `j` of `node` to the
/// output `output` of the scope back across the node.
fn back<T: Timestamp>(
    nodes: &Nodes<T::Summary>,
    results: &mut OutputSummaries<T::Summary>,
    queue: &mut VecDeque<(Location, usize, T::Summary)>,
    node: usize,
    j: usize,
    output: usize,
    summary: &T::Summary,
)
    requires
        old(results).targets.len() == nodes.len(),
        forall|n: int|
            0 <= n < nodes.len() ==> (#[trigger] old(results).targets[n]).len() == nodes[n].len(),
        node < nodes.len(),
        forall|i: int| 0 <= i < nodes[node as int].len() ==> j < (#[trigger] nodes[node as int][i]).len(),
        output < usize::MAX,
    ensures
        survey_of(*final(results), *final(queue)) == backed::<T>(
            nodes_view(*nodes),
            survey_of(*old(results), *old(queue)),
            node,
            j as int,
            output,
            *summary,
            0,
            0,
        ),
        final(results).targets.len() == nodes.len(),
        forall|n: int|
            0 <= n < nodes.len() ==> (#[trigger] final(results).targets[n]).len() == nodes[n].len(),
        final(results).sources == old(results).sources,
{
    let ghost nv = nodes_view(*nodes);
    let ghost goal = backed::<T>(
        nv,
        survey_of(*old(results), *old(queue)),
        node,
        j as int,
        output,
        *summary,
        0,
        0,
    );
    let mut i: usize = 0;
    while i < nodes[node].len()
        invariant
            0 <= i <= nodes[node as int].len(),
            nv == nodes_view(*nodes),
            node < nodes.len(),
            output < usize::MAX,
            forall|a: int|
                0 <= a < nodes[node as int].len() ==> j < (#[trigger] nodes[node as int][a]).len(),
            results.targets.len() == nodes.len(),
            forall|n: int| 0 <= n < nodes.len() ==> (#[trigger] results.targets[n]).len() == nodes[n].len(),
            results.sources == old(results).sources,
            backed::<T>(nv, survey_of(*results, *queue), node, j as int, output, *summary, i as int, 0)
                == goal,
        decreases nodes[node as int].len() - i,
    {
        let ghost loc = Location { node, port: Port::Target(i) };
        let ghost st = survey_of(*results, *queue);
        pad(&mut results.targets[node][i], output);
        proof {
            assert(results.found() =~= st.found.insert(loc, padded(st.found[loc], output + 1)));
            assert(survey_of(*results, *queue) == prepared(st, loc, output));
            lemma_prepared_same(survey_of(*results, *queue), loc, output);
        }
        let antichain = &nodes[node][i][j];
        let mut k: usize = 0;
        while k < antichain.len()
            invariant
                0 <= i < nodes[node as int].len(),
                nv == nodes_view(*nodes),
                node < nodes.len(),
                output < usize::MAX,
                j < nodes[node as int][i as int].len(),
                *antichain == nodes[node as int][i as int][j as int],
                loc == (Location { node, port: Port::Target(i) }),
                0 <= k <= antichain@.len(),
                results.targets.len() == nodes.len(),
                forall|n: int|
                    0 <= n < nodes.len() ==> (#[trigger] results.targets[n]).len() == nodes[n].len(),
                results.sources == old(results).sources,
                results.targets[node as int][i as int].len() > output,
                backed::<T>(
                    nv,
                    survey_of(*results, *queue),
                    node,
                    j as int,
                    output,
                    *summary,
                    i as int,
                    k as int,
                ) == goal,
            decreases antichain@.len() - k,
        {
            let ghost cur = survey_of(*results, *queue);
            proof {
                lemma_prepared_same(cur, loc, output);
            }
            match antichain.get(k).followed_by(summary) {
                Some(c) => {
                    let copy = c.duplicate();
                    if offer(&mut results.targets[node][i], output, copy) {
                        queue.push_back((Location::new_target(node, i), output, c));
                    }
                    proof {
                        let row = cur.found[loc];
                        assert(results.found() =~= cur.found.insert(
                            loc,
                            row.update(output as int, inserted(row[output as int], c)),
                        ));
                        if dominated(row[output as int], c) {
                            assert(row.update(output as int, inserted(row[output as int], c)) =~= row);
                            assert(results.found() =~= cur.found);
                        }
                        assert(survey_of(*results, *queue) == offered(cur, loc, output, c));
                    }
                },
                None => {},
            }
            k += 1;
        }
        proof {
            lemma_prepared_same(survey_of(*results, *queue), loc, output);
        }
        i += 1;
    }
}

/// The feeders that `table` holds, by node and input port.
pub open spec fn reverse_of(table: Vec<Vec<Option<Source>>>) -> Map<Location, Source> {
    Map::new(
        |l: Location|
            match l.port {
                Port::Target(i) => l.node < table.len() && i < table[l.node as int].len()
                    && table[l.node as int][i as int] is Some,
                Port::Source(_) => false,
            },
        |l: Location|
            match l.port {
                Port::Target(i) => table[l.node as int][i as int].unwrap(),
                Port::Source(j) => Source { node: l.node, port: j },
            },
    )
}

/// For each input port, the output port of the last edge that leads to it.
fn reverse_edges<S: PartialOrder + Value>(nodes: &Nodes<S>, edges: &Edges) -> (r: Vec<
    Vec<Option<Source>>,
>)
    requires
        shaped(nodes_view(*nodes), edges_view(*edges)),
        edges_closed(nodes_view(*nodes), edges_view(*edges)),
    ensures
        reverse_of(r) == feeders(edges_view(*edges), 0, 0, 0, Map::empty()),
        r.len() == nodes.len(),
        forall|n: int| 0 <= n < r.len() ==> (#[trigger] r[n]).len() == nodes[n].len(),
{
    let ghost nv = nodes_view(*nodes);
    let ghost ev = edges_view(*edges);
    let mut table: Vec<Vec<Option<Source>>> = Vec::new();
    let mut m: usize = 0;
    while m < nodes.len()
        invariant
            0 <= m <= nodes.len(),
            table.len() == m,
            forall|a: int| 0 <= a < m ==> (#[trigger] table[a]).len() == nodes[a].len(),
            forall|a: int, b: int|
                0 <= a < m && 0 <= b < table[a].len() ==> (#[trigger] table[a][b]) is None,
        decreases nodes.len() - m,
    {
        let mut row: Vec<Option<Source>> = Vec::new();
        let mut q: usize = 0;
        while q < nodes[m].len()
            invariant
                0 <= m < nodes.len(),
                0 <= q <= nodes[m as int].len(),
                row.len() == q,
                forall|b: int| 0 <= b < q ==> (#[trigger] row[b]) is None,
            decreases nodes[m as int].len() - q,
        {
            row.push(None);
            q += 1;
        }
        table.push(row);
        m += 1;
    }
    let ghost goal = feeders(ev, 0, 0, 0, Map::empty());
    assert(reverse_of(table) =~= Map::<Location, Source>::empty());
    let mut n: usize = 0;
    while n < edges.len()
        invariant
            0 <= n <= edges.len(),
            nv == nodes_view(*nodes),
            ev == edges_view(*edges),
            shaped(nv, ev),
            edges_closed(nv, ev),
            table.len() == nodes.len(),
            forall|a: int| 0 <= a < table.len() ==> (#[trigger] table[a]).len() == nodes[a].len(),
            feeders(ev, n as int, 0, 0, reverse_of(table)) == goal,
        decreases edges.len() - n,
    {
        let mut p: usize = 0;
        while p < edges[n].len()
            invariant
                0 <= n < edges.len(),
                0 <= p <= edges[n as int].len(),
                nv == nodes_view(*nodes),
                ev == edges_view(*edges),
                shaped(nv, ev),
                edges_closed(nv, ev),
                table.len() == nodes.len(),
                forall|a: int| 0 <= a < table.len() ==> (#[trigger] table[a]).len() == nodes[a].len(),
                feeders(ev, n as int, p as int, 0, reverse_of(table)) == goal,
            decreases edges[n as int].len() - p,
        {
            let mut k: usize = 0;
            while k < edges[n][p].len()
                invariant
                    0 <= n < edges.len(),
                    0 <= p < edges[n as int].len(),
                    0 <= k <= edges[n as int][p as int].len(),
                    nv == nodes_view(*nodes),
                    ev == edges_view(*edges),
                    shaped(nv, ev),
                    edges_closed(nv, ev),
                    table.len() == nodes.len(),
                    forall|a: int|
                        0 <= a < table.len() ==> (#[trigger] table[a]).len() == nodes[a].len(),
                    feeders(ev, n as int, p as int, k as int, reverse_of(table)) == goal,
                decreases edges[n as int][p as int].len() - k,
            {
                let target = edges[n][p][k];
                let ghost before = reverse_of(table);
                proof {
                    assert(target == ev[n as int][p as int][k as int]);
                    assert(is_port(nv, ev, Location::of_target(target)));
                }
                table[target.node][target.port] = Some(Source::new(n, p));
                proof {
                    assert(reverse_of(table) =~= before.insert(
                        Location::of_target(target),
                        Source { node: n, port: p },
                    ));
                }
                k += 1;
            }
            p += 1;
        }
        n += 1;
    }
    table
}

/// The outputs of the scope that an edge leads to, each with the summary of
/// the empty path.
fn scope_exits<T: Timestamp>(edges: &Edges) -> (r: VecDeque<(Location, usize, T::Summary)>)
    ensures
        r@ == exits(edges_view(*edges), 0, 0, 0, Seq::empty(), T::Summary::identity()),
{
    let ghost ev = edges_view(*edges);
    let ghost goal = exits(ev, 0, 0, 0, Seq::empty(), T::Summary::identity());
    let mut queue: VecDeque<(Location, usize, T::Summary)> = VecDeque::new();
    let mut n: usize = 0;
    while n < edges.len()
        invariant
            0 <= n <= edges.len(),
            ev == edges_view(*edges),
            exits(ev, n as int, 0, 0, queue@, T::Summary::identity()) == goal,
        decreases edges.len() - n,
    {
        let mut p: usize = 0;
        while p < edges[n].len()
            invariant
                0 <= n < edges.len(),
                0 <= p <= edges[n as int].len(),
                ev == edges_view(*edges),
                exits(ev, n as int, p as int, 0, queue@, T::Summary::identity()) == goal,
            decreases edges[n as int].len() - p,
        {
            let mut k: usize = 0;
            while k < edges[n][p].len()
                invariant
                    0 <= n < edges.len(),
                    0 <= p < edges[n as int].len(),
                    0 <= k <= edges[n as int][p as int].len(),
                    ev == edges_view(*edges),
                    exits(ev, n as int, p as int, k as int, queue@, T::Summary::identity()) == goal,
                decreases edges[n as int][p as int].len() - k,
            {
                let target = edges[n][p][k];
                proof {
                    assert(target == ev[n as int][p as int][k as int]);
                }
                if target.node == 0 {
                    queue.push_back(
                        (Location::from_target(target), target.port, T::Summary::default_summary()),
                    );
                }
                k += 1;
            }
            p += 1;
        }
        n += 1;
    }
    queue
}

/// No summaries, for the ports of the graph.
fn blank<S: PartialOrder + Value>(nodes: &Nodes<S>, edges: &Edges) -> (r: OutputSummaries<S>)
    requires
        nodes.len() == edges.len(),
    ensures
        r.matches(nodes_view(*nodes), edges_view(*edges)),
        forall|l: Location| r.holds(l) ==> (#[trigger] r.at(l)).len() == 0,
{
    let mut targets: Vec<Vec<Vec<Antichain<S>>>> = Vec::new();
    let mut sources: Vec<Vec<Vec<Antichain<S>>>> = Vec::new();
    let mut n: usize = 0;
    while n < nodes.len()
        invariant
            0 <= n <= nodes.len(),
            nodes.len() == edges.len(),
            targets.len() == n,
            sources.len() == n,
            forall|a: int| 0 <= a < n ==> (#[trigger] targets[a]).len() == nodes[a].len(),
            forall|a: int| 0 <= a < n ==> (#[trigger] sources[a]).len() == edges[a].len(),
            forall|a: int, b: int|
                0 <= a < n && 0 <= b < targets[a].len() ==> (#[trigger] targets[a][b]).len() == 0,
            forall|a: int, b: int|
                0 <= a < n && 0 <= b < sources[a].len() ==> (#[trigger] sources[a][b]).len() == 0,
        decreases nodes.len() - n,
    {
        let mut ins: Vec<Vec<Antichain<S>>> = Vec::new();
        let mut i: usize = 0;
        while i < nodes[n].len()
            invariant
                0 <= n < nodes.len(),
                0 <= i <= nodes[n as int].len(),
                ins.len() == i,
                forall|b: int| 0 <= b < i ==> (#[trigger] ins[b]).len() == 0,
            decreases nodes[n as int].len() - i,
        {
            ins.push(Vec::new());
            i += 1;
        }
        let mut outs: Vec<Vec<Antichain<S>>> = Vec::new();
        let mut j: usize = 0;
        while j < edges[n].len()
            invariant
                0 <= n < edges.len(),
                0 <= j <= edges[n as int].len(),
                outs.len() == j,
                forall|b: int| 0 <= b < j ==> (#[trigger] outs[b]).len() == 0,
            decreases edges[n as int].len() - j,
        {
            outs.push(Vec::new());
            j += 1;
        }
        targets.push(ins);
        sources.push(outs);
        n += 1;
    }
    OutputSummaries { targets, sources }
}

/// Finds, for each port of the graph and each output of the scope, the
/// least summaries of the walks back from the output to the port: what the
/// walk backwards from the outputs finds.
pub fn summarize_outputs<T: Timestamp>(nodes: &Nodes<T::Summary>, edges: &Edges) -> (r:
    OutputSummaries<T::Summary>)
    requires
        shaped(nodes_view(*nodes), edges_view(*edges)),
        edges_closed(nodes_view(*nodes), edges_view(*edges)),
    ensures
        r.matches(nodes_view(*nodes), edges_view(*edges)),
        r.found() == surveyed::<T>(nodes_view(*nodes), edges_view(*edges)),
        forall|l: Location|
            is_port(nodes_view(*nodes), edges_view(*edges), l) ==> (#[trigger] r.at(l)).len()
                <= nodes[0].len(),
        antichains(nodes_view(*nodes), edges_view(*edges), r.found()),
        forall|l: Location, o: usize, s: T::Summary| #[trigger]
            crate::walks::held(nodes_view(*nodes), edges_view(*edges), r.found(), l, o, s)
                ==> crate::walks::is_walk_back::<T>(
                nodes_view(*nodes),
                feeders(edges_view(*edges), 0, 0, 0, Map::empty()),
                l,
                o,
                s,
            ),
        forall|o: usize, trail: Seq<(Location, T::Summary)>| #[trigger]
            crate::walks::is_trail::<T>(
                nodes_view(*nodes),
                feeders(edges_view(*edges), 0, 0, 0, Map::empty()),
                o,
                trail,
            ) && trail.len() >= 2 ==> crate::walks::covered(r.found(), trail.last().0, o, trail.last().1),
{
    let ghost nv = nodes_view(*nodes);
    let ghost ev = edges_view(*edges);
    let reverse = reverse_edges(nodes, edges);
    let mut queue = scope_exits::<T>(edges);
    let mut results = blank(nodes, edges);
    let ghost rev = reverse_of(reverse);
    let ghost start = survey_start::<T>(nv, ev);
    proof {
        crate::graph::lemma_views_sized(*nodes, *edges);
        crate::surveying::lemma_survey_lawful::<T>(nv, ev);
        crate::walks::lemma_surveyed_walks::<T>(nv, ev);
        lemma_exits_fit(nv, ev, 0, 0, 0, Seq::empty(), T::Summary::identity());
        lemma_feeders_fit(nv, ev, 0, 0, 0, Map::empty());
        lemma_survey_run_fits::<T>(
            nv,
            ev,
            feeders(ev, 0, 0, 0, Map::empty()),
            survey_start::<T>(nv, ev),
            choose|n: nat| surveyed_after::<T>(nv, ev, n),
        );
    }
    let ghost n: nat = choose|n: nat| surveyed_after::<T>(nv, ev, n);
    let ghost mut done: nat = 0;
    proof {
        assert forall|l: Location| results.holds(l) implies #[trigger] results.found()[l]
            == Seq::<Seq<T::Summary>>::empty() by {
            assert(results.at(l).len() == 0);
            assert(row_view(results.at(l)) =~= Seq::<Seq<T::Summary>>::empty());
        }
        assert forall|l: Location| results.holds(l) == is_port(nv, ev, l) by {
            if l.node < nodes.len() {
                assert(results.targets[l.node as int].len() == nv[l.node as int].len());
                assert(results.sources[l.node as int].len() == ev[l.node as int].len());
            }
        }
        assert(results.found() =~= start.found);
        lemma_exits_fit(nv, ev, 0, 0, 0, Seq::empty(), T::Summary::identity());
        lemma_feeders_fit(nv, ev, 0, 0, 0, Map::empty());
    }
    loop
        invariant
            nv == nodes_view(*nodes),
            ev == edges_view(*edges),
            shaped(nv, ev),
            edges_closed(nv, ev),
            rev == reverse_of(reverse),
            rev == feeders(ev, 0, 0, 0, Map::empty()),
            start == survey_start::<T>(nv, ev),
            reverse.len() == nodes.len(),
            forall|a: int| 0 <= a < reverse.len() ==> (#[trigger] reverse[a]).len() == nodes[a].len(),
            feeders_fit(nv, ev, rev),
            results.matches(nv, ev),
            survey_fits(nv, ev, survey_of(results, queue)),
            survey_run::<T>(nv, rev, start, done) == survey_of(results, queue),
            done <= n,
            surveyed_after::<T>(nv, ev, n),
        ensures
            results.matches(nv, ev),
            survey_fits(nv, ev, survey_of(results, queue)),
            survey_of(results, queue) == survey_run::<T>(nv, rev, start, n),
        decreases n - done,
    {
        let ghost cur = survey_of(results, queue);
        match queue.pop_front() {
            None => {
                proof {
                    lemma_survey_stays::<T>(nv, rev, start, done, n);
                }
                break ;
            },
            Some(first) => {
                let (location, output, summary) = first;
                let ghost rest = Survey { queue: cur.queue.subrange(1, cur.queue.len() as int), ..cur };
                proof {
                    assert(first == cur.queue[0]);
                    assert(is_port(nv, ev, location));
                    lemma_survey_step_fits::<T>(nv, ev, rev, cur);
                    assert(survey_of(results, queue) == rest);
                }
                match location.port {
                    Port::Source(j) => {
                        proof {
                            assert forall|i: int| 0 <= i < nodes[location.node as int].len() implies j < (
                            #[trigger] nodes[location.node as int][i]).len() by {
                                assert(nv[location.node as int][i].len() == ev[location.node as int].len());
                            }
                        }
                        back::<T>(nodes, &mut results, &mut queue, location.node, j, output, &summary);
                    },
                    Port::Target(i) => {
                        match reverse[location.node][i] {
                            Some(source) => {
                                let ghost from = Location::of_source(source);
                                proof {
                                    assert(rev.dom().contains(location));
                                    assert(rev[location] == source);
                                    assert(is_port(nv, ev, from));
                                }
                                pad(&mut results.sources[source.node][source.port], output);
                                proof {
                                    assert(results.found() =~= rest.found.insert(
                                        from,
                                        padded(rest.found[from], output + 1),
                                    ));
                                }
                                let ghost ready = survey_of(results, queue);
                                let copy = summary.duplicate();
                                if offer(&mut results.sources[source.node][source.port], output, copy) {
                                    queue.push_back((Location::from_source(source), output, summary));
                                }
                                proof {
                                    let row = ready.found[from];
                                    assert(results.found() =~= ready.found.insert(
                                        from,
                                        row.update(output as int, inserted(row[output as int], summary)),
                                    ));
                                    if dominated(row[output as int], summary) {
                                        assert(row.update(
                                            output as int,
                                            inserted(row[output as int], summary),
                                        ) =~= row);
                                        assert(results.found() =~= ready.found);
                                    }
                                }
                            },
                            None => {
                                proof {
                                    assert(!rev.dom().contains(location));
                                }
                            },
                        }
                    },
                }
                proof {
                    if done == n {
                        assert(false);
                    }
                    done = done + 1;
                }
            },
        }
    }
    proof {
        assert forall|l: Location| is_port(nv, ev, l) implies (#[trigger] results.at(l)).len()
            <= nodes[0].len() by {
            assert(survey_of(results, queue).found.dom().contains(l));
            assert(survey_of(results, queue).found[l].len() <= nv[0].len());
        }
    }
    results
}

} // verus!
