//! The tracker: counts of capabilities at the ports of a graph, and the
//! frontiers of what they imply downstream.
use vstd::prelude::*;
use crate::order::{PartialOrder, PathSummary, Timestamp, Value};
use crate::antichain::Antichain;
use crate::location::{Location, Port, Source, Target};
use crate::change_batch::{ChangeBatch, merged, stored, lemma_merged_keys};
use crate::frontier::{MutableAntichain, frontier_of, lemma_applied_one};
use crate::worklist::Worklist;
use crate::graph::{
    Nodes, Edges, is_port, row_view, nodes_view, edges_view, duplicate_nodes, duplicate_edges,
};
use crate::builder::Builder;
use crate::summarize::{summarize_outputs, surveyed};
use crate::balance::{balanced, reported, nothing_held, nothing_implied};
use crate::propagation::{
    Plan, Ledger, crossed, sent, projected, noted, absorbed_one, absorbed_targets,
    absorbed_sources, relayed, moved, step, run, quiet_after, settles, settles_within, settled,
    taken_up, lemma_not_yet,
    lemma_projected_fits, lemma_enqueued_fits, lemma_crossed_fits, lemma_sent_fits, lemma_run_fits,
};

verus! {

/// What is tracked at one port.
pub struct PortInformation<T: Timestamp> {
    /// The counts of the capabilities held at the port.
    pub pointstamps: MutableAntichain<T>,
    /// The counts of what capabilities held anywhere imply at the port.
    pub implications: MutableAntichain<T>,
    /// The summaries of the paths from the port to each output of the scope.
    pub output_summaries: Vec<Antichain<T::Summary>>,
}

/// What is tracked at the ports of one node.
pub struct PerOperator<T: Timestamp> {
    /// The input ports.
    pub targets: Vec<PortInformation<T>>,
    /// The output ports.
    pub sources: Vec<PortInformation<T>>,
}

/// Some timestamp of `f` is strictly less than `time`.
pub open spec fn undercut<T: PartialOrder>(f: Seq<T>, time: T) -> bool {
    exists|i: int| 0 <= i < f.len() && (#[trigger] f[i]).leq(time) && f[i] != time
}

/// `port` shows what `ledger` and `plan` hold for the port `loc`: its counts
/// are those of the state, the frontiers it holds are the frontiers of these
/// counts, and its summaries are those of the graph.
pub open spec fn shows<T: Timestamp>(
    port: PortInformation<T>,
    plan: Plan<T>,
    ledger: Ledger<T>,
    loc: Location,
) -> bool {
    &&& port.pointstamps.wf()
    &&& port.implications.wf()
    &&& port.pointstamps@ == ledger.pointstamps[loc]
    &&& port.pointstamps.held() == frontier_of(ledger.pointstamps[loc])
    &&& port.implications@ == ledger.implications[loc]
    &&& port.implications.held() == frontier_of(ledger.implications[loc])
    &&& row_view(port.output_summaries) == plan.summaries[loc]
}

/// The two hold the same counts, frontiers and summaries.
pub open spec fn alike<T: Timestamp>(a: PortInformation<T>, b: PortInformation<T>) -> bool {
    &&& a.pointstamps@ == b.pointstamps@
    &&& a.pointstamps.held() == b.pointstamps.held()
    &&& a.implications@ == b.implications@
    &&& a.implications.held() == b.implications.held()
    &&& row_view(a.output_summaries) == row_view(b.output_summaries)
}

/// Nothing is counted at the port, and its frontiers are in order.
pub open spec fn fresh<T: Timestamp>(port: PortInformation<T>) -> bool {
    &&& port.pointstamps@ == Seq::<(T, i64)>::empty()
    &&& port.implications@ == Seq::<(T, i64)>::empty()
    &&& port.pointstamps.wf()
    &&& port.implications.wf()
}

/// Nothing is counted at the port, and it has no summaries.
pub open spec fn blank<T: Timestamp>(port: PortInformation<T>) -> bool {
    &&& fresh(port)
    &&& port.output_summaries@ == Seq::<Antichain<T::Summary>>::empty()
}

impl<T: Timestamp> PortInformation<T> {
    /// A port at which nothing is tracked.
    pub fn new() -> (r: Self)
        ensures
            blank(r),
    {
        PortInformation {
            pointstamps: MutableAntichain::new(),
            implications: MutableAntichain::new(),
            output_summaries: Vec::new(),
        }
    }

    /// A copy of what is tracked at the port.
    pub fn duplicate(&self) -> (r: Self)
        ensures
            alike(r, *self),
    {
        let mut output_summaries: Vec<Antichain<T::Summary>> = Vec::new();
        let mut o: usize = 0;
        while o < self.output_summaries.len()
            invariant
                0 <= o <= self.output_summaries.len(),
                output_summaries.len() == o,
                forall|a: int| 0 <= a < o ==> (#[trigger] output_summaries[a])@ == self.output_summaries[a]@,
            decreases self.output_summaries.len() - o,
        {
            output_summaries.push(self.output_summaries[o].duplicate());
            o += 1;
        }
        assert(row_view(output_summaries) =~= row_view(self.output_summaries));
        PortInformation {
            pointstamps: self.pointstamps.duplicate(),
            implications: self.implications.duplicate(),
            output_summaries,
        }
    }

    /// Whether `time` alone holds back the frontier of implications at this
    /// port: no timestamp of the frontier is strictly less than `time`, and the
    /// count of `time` is one, so that to take one away would move the
    /// frontier.
    pub fn is_global(&self, time: &T) -> (r: bool)
        ensures
            r == (!undercut(self.implications.held(), *time) && stored(self.implications@, *time)
                == 1),
    {
        let frontier = self.implications.frontier();
        let mut dominated = false;
        let mut i: usize = 0;
        while i < frontier.len()
            invariant
                0 <= i <= frontier.len(),
                dominated == exists|j: int|
                    0 <= j < i && (#[trigger] frontier@[j]).leq(*time) && frontier@[j] != *time,
            decreases frontier.len() - i,
        {
            if frontier[i].less_than(time) {
                dominated = true;
            }
            i += 1;
        }
        let single = self.implications.count_for(time) == 1;
        !dominated && single
    }
}

impl<T: Timestamp> PerOperator<T> {
    /// A node with `inputs` input ports and `outputs` output ports, at which
    /// nothing is tracked.
    pub fn new(inputs: usize, outputs: usize) -> (r: Self)
        ensures
            r.targets.len() == inputs,
            r.sources.len() == outputs,
            forall|i: int| 0 <= i < inputs ==> blank(#[trigger] r.targets[i]),
            forall|j: int| 0 <= j < outputs ==> blank(#[trigger] r.sources[j]),
    {
        let mut targets: Vec<PortInformation<T>> = Vec::new();
        let mut i: usize = 0;
        while i < inputs
            invariant
                0 <= i <= inputs,
                targets.len() == i,
                forall|a: int| 0 <= a < i ==> blank(#[trigger] targets[a]),
            decreases inputs - i,
        {
            targets.push(PortInformation::new());
            i += 1;
        }
        let mut sources: Vec<PortInformation<T>> = Vec::new();
        let mut j: usize = 0;
        while j < outputs
            invariant
                0 <= j <= outputs,
                sources.len() == j,
                forall|a: int| 0 <= a < j ==> blank(#[trigger] sources[a]),
            decreases outputs - j,
        {
            sources.push(PortInformation::new());
            j += 1;
        }
        PerOperator { targets, sources }
    }
}

/// The contents of the buffers `v`.
pub open spec fn batches<T: Timestamp>(v: Vec<ChangeBatch<T>>) -> Seq<Seq<(T, i64)>> {
    Seq::new(v.len() as nat, |o: int| v[o]@)
}

/// Makes `diff` pending at what `time` becomes along each summary of `row`, at
/// the output port of `node` that the summary leads to.
fn cross<T: Timestamp>(
    worklist: &mut Worklist<T>,
    row: &Vec<Antichain<T::Summary>>,
    node: usize,
    time: &T,
    diff: i64,
)
    requires
        old(worklist).wf(),
    ensures
        final(worklist)@ == crossed(old(worklist)@, row_view(*row), node, 0, 0, *time, diff),
        final(worklist).wf(),
{
    let mut j: usize = 0;
    while j < row.len()
        invariant
            0 <= j <= row.len(),
            worklist.wf(),
            crossed(worklist@, row_view(*row), node, j as int, 0, *time, diff) == crossed(
                old(worklist)@,
                row_view(*row),
                node,
                0,
                0,
                *time,
                diff,
            ),
        decreases row.len() - j,
    {
        let summaries = &row[j];
        let mut k: usize = 0;
        while k < summaries.len()
            invariant
                0 <= j < row.len(),
                *summaries == row[j as int],
                0 <= k <= summaries@.len(),
                worklist.wf(),
                crossed(worklist@, row_view(*row), node, j as int, k as int, *time, diff) == crossed(
                    old(worklist)@,
                    row_view(*row),
                    node,
                    0,
                    0,
                    *time,
                    diff,
                ),
            decreases summaries@.len() - k,
        {
            match summaries.get(k).results_in(time) {
                Some(t) => {
                    worklist.push(t, Location::new_source(node, j), diff);
                },
                None => {},
            }
            k += 1;
        }
        j += 1;
    }
}

/// Makes `diff` pending at `time` at each of `targets`.
fn send<T: Timestamp>(worklist: &mut Worklist<T>, targets: &Vec<Target>, time: &T, diff: i64)
    requires
        old(worklist).wf(),
    ensures
        final(worklist)@ == sent(old(worklist)@, targets@, 0, *time, diff),
        final(worklist).wf(),
{
    let mut k: usize = 0;
    while k < targets.len()
        invariant
            0 <= k <= targets.len(),
            worklist.wf(),
            sent(worklist@, targets@, k as int, *time, diff) == sent(
                old(worklist)@,
                targets@,
                0,
                *time,
                diff,
            ),
        decreases targets.len() - k,
    {
        worklist.push(time.duplicate(), Location::from_target(targets[k]), diff);
        k += 1;
    }
}

/// Records `diff` at what `time` becomes along each summary of `summaries`,
/// for the output of the scope that the summary leads to. Gives up, and says
/// so, where a sum is not a count.
fn project<T: Timestamp>(
    outputs: &mut Vec<ChangeBatch<T>>,
    summaries: &Vec<Antichain<T::Summary>>,
    time: &T,
    diff: i64,
) -> (ok: bool)
    requires
        summaries.len() <= old(outputs).len(),
        forall|o: int| 0 <= o < old(outputs).len() ==> (#[trigger] old(outputs)[o]).wf(),
    ensures
        ok == projected(batches(*old(outputs)), row_view(*summaries), 0, 0, *time, diff) is Some,
        ok ==> batches(*final(outputs)) == projected(
            batches(*old(outputs)),
            row_view(*summaries),
            0,
            0,
            *time,
            diff,
        ).unwrap(),
        ok ==> final(outputs).len() == old(outputs).len(),
        ok ==> forall|o: int| 0 <= o < final(outputs).len() ==> (#[trigger] final(outputs)[o]).wf(),
{
    let ghost goal = projected(batches(*old(outputs)), row_view(*summaries), 0, 0, *time, diff);
    let mut o: usize = 0;
    while o < summaries.len()
        invariant
            0 <= o <= summaries.len(),
            summaries.len() <= outputs.len(),
            outputs.len() == old(outputs).len(),
            forall|a: int| 0 <= a < outputs.len() ==> (#[trigger] outputs[a]).wf(),
            projected(batches(*outputs), row_view(*summaries), o as int, 0, *time, diff) == goal,
            goal == projected(batches(*old(outputs)), row_view(*summaries), 0, 0, *time, diff),
        decreases summaries.len() - o,
    {
        let antichain = &summaries[o];
        let mut k: usize = 0;
        while k < antichain.len()
            invariant
                0 <= o < summaries.len(),
                *antichain == summaries[o as int],
                0 <= k <= antichain@.len(),
                summaries.len() <= outputs.len(),
                outputs.len() == old(outputs).len(),
                forall|a: int| 0 <= a < outputs.len() ==> (#[trigger] outputs[a]).wf(),
                projected(batches(*outputs), row_view(*summaries), o as int, k as int, *time, diff) == goal,
                goal == projected(batches(*old(outputs)), row_view(*summaries), 0, 0, *time, diff),
            decreases antichain@.len() - k,
        {
            match antichain.get(k).results_in(time) {
                Some(t) => {
                    let ghost before = batches(*outputs);
                    assert(before[o as int] == outputs[o as int]@);
                    if !outputs[o].fits(&t, diff) {
                        assert(row_view(*summaries)[o as int][k as int] == antichain@[k as int]);
                        assert(goal is None);
                        return false;
                    }
                    outputs[o].update(t, diff);
                    assert(batches(*outputs) =~= before.update(o as int, outputs[o as int]@));
                },
                None => {},
            }
            k += 1;
        }
        o += 1;
    }
    true
}

/// What `per_operator` holds for the port `loc`.
pub open spec fn port_of<T: Timestamp>(per_operator: Vec<PerOperator<T>>, loc: Location)
    -> PortInformation<T> {
    match loc.port {
        Port::Target(i) => per_operator[loc.node as int].targets[i as int],
        Port::Source(j) => per_operator[loc.node as int].sources[j as int],
    }
}

/// The graph of `nodes` and `edges`, with the summaries to the outputs of the
/// scope that `per_operator` holds.
pub open spec fn plan_of<T: Timestamp>(
    nodes: Nodes<T::Summary>,
    edges: Edges,
    per_operator: Vec<PerOperator<T>>,
) -> Plan<T> {
    Plan {
        nodes: nodes_view(nodes),
        edges: edges_view(edges),
        summaries: Map::new(
            |l: Location| is_port(nodes_view(nodes), edges_view(edges), l),
            |l: Location| row_view(port_of(per_operator, l).output_summaries),
        ),
    }
}

/// The state made of the counts that `per_operator` holds and of the rest.
pub open spec fn ledger_of<T: Timestamp>(
    nodes: Nodes<T::Summary>,
    edges: Edges,
    per_operator: Vec<PerOperator<T>>,
    worklist: Seq<(T, Location, i64)>,
    pushed: Seq<((Location, T), i64)>,
    outputs: Vec<ChangeBatch<T>>,
    total: i64,
) -> Ledger<T> {
    Ledger {
        pointstamps: Map::new(
            |l: Location| is_port(nodes_view(nodes), edges_view(edges), l),
            |l: Location| port_of(per_operator, l).pointstamps@,
        ),
        implications: Map::new(
            |l: Location| is_port(nodes_view(nodes), edges_view(edges), l),
            |l: Location| port_of(per_operator, l).implications@,
        ),
        worklist,
        pushed,
        outputs: batches(outputs),
        total,
    }
}

/// The state of a tracker of the graph in which nothing is held, pending or
/// recorded.
pub open spec fn blank_ledger<T: Timestamp>(
    nodes: Seq<Seq<Seq<Seq<T::Summary>>>>,
    edges: Seq<Seq<Seq<Target>>>,
) -> Ledger<T> {
    Ledger {
        pointstamps: Map::new(
            |l: Location| is_port(nodes, edges, l),
            |l: Location| Seq::<(T, i64)>::empty(),
        ),
        implications: Map::new(
            |l: Location| is_port(nodes, edges, l),
            |l: Location| Seq::<(T, i64)>::empty(),
        ),
        worklist: Seq::empty(),
        pushed: Seq::empty(),
        outputs: Seq::new(nodes[0].len(), |o: int| Seq::<(T, i64)>::empty()),
        total: 0,
    }
}

/// Tracks, for a graph that is fixed, the capabilities held at its ports and
/// what they imply at the ports downstream.
pub struct Tracker<T: Timestamp> {
    /// The summaries inside each node.
    nodes: Nodes<T::Summary>,
    /// The edges from each output port.
    edges: Edges,
    /// What is tracked at the ports of each node.
    per_operator: Vec<PerOperator<T>>,
    /// The changes at input ports that were not yet taken up.
    pub(crate) target_changes: ChangeBatch<(Target, T)>,
    /// The changes at output ports that were not yet taken up.
    pub(crate) source_changes: ChangeBatch<(Source, T)>,
    /// The pending changes to implications.
    worklist: Worklist<T>,
    /// The changes to the frontiers of implications that were not yet taken.
    pushed_changes: ChangeBatch<(Location, T)>,
    /// For each output of the scope, the changes projected to it.
    output_changes: Vec<ChangeBatch<T>>,
    /// The sum of the changes to the frontiers of the capabilities held.
    total_counts: i64,
}

impl<T: Timestamp> Tracker<T> {
    /// What is tracked at the port `loc`.
    pub closed spec fn port(self, loc: Location) -> PortInformation<T> {
        port_of(self.per_operator, loc)
    }

    /// The graph that the tracker follows.
    pub closed spec fn plan(self) -> Plan<T> {
        plan_of(self.nodes, self.edges, self.per_operator)
    }

    /// The state that propagation changes.
    pub closed spec fn ledger(self) -> Ledger<T> {
        ledger_of(
            self.nodes,
            self.edges,
            self.per_operator,
            self.worklist@,
            self.pushed_changes@,
            self.output_changes,
            self.total_counts,
        )
    }

    /// The buffered changes at input ports.
    pub closed spec fn buffered_targets(self) -> Seq<((Target, T), i64)> {
        self.target_changes@
    }

    /// The buffered changes at output ports.
    pub closed spec fn buffered_sources(self) -> Seq<((Source, T), i64)> {
        self.source_changes@
    }

    /// The parts of the tracker agree with each other.
    pub closed spec fn structured(self) -> bool {
        &&& self.per_operator.len() == self.nodes.len()
        &&& forall|n: int|
            0 <= n < self.per_operator.len() ==> (#[trigger] self.per_operator[n]).targets.len()
                == self.nodes[n].len() && self.per_operator[n].sources.len() == self.edges[n].len()
        &&& forall|n: int, i: int|
            0 <= n < self.per_operator.len() && 0 <= i < self.per_operator[n].targets.len() ==> {
                &&& (#[trigger] self.per_operator[n].targets[i]).pointstamps.wf()
                &&& self.per_operator[n].targets[i].implications.wf()
            }
        &&& forall|n: int, j: int|
            0 <= n < self.per_operator.len() && 0 <= j < self.per_operator[n].sources.len() ==> {
                &&& (#[trigger] self.per_operator[n].sources[j]).pointstamps.wf()
                &&& self.per_operator[n].sources[j].implications.wf()
            }
        &&& self.worklist.wf()
        &&& self.pushed_changes.wf()
        &&& self.target_changes.wf()
        &&& self.source_changes.wf()
        &&& forall|o: int| 0 <= o < self.output_changes.len() ==> (#[trigger] self.output_changes[o]).wf()
    }

    /// The tracker is in order: its graph is well shaped, and its state fits
    /// the graph.
    pub closed spec fn wf(self) -> bool {
        &&& self.plan().wf()
        &&& self.ledger().wf(self.plan())
        &&& self.structured()
    }

    /// Every buffered change is at a port of the graph.
    pub open spec fn buffered_at_ports(self) -> bool {
        &&& forall|i: int|
            0 <= i < self.buffered_targets().len() ==> self.plan().has(
                Location::of_target((#[trigger] self.buffered_targets()[i]).0.0),
            )
        &&& forall|i: int|
            0 <= i < self.buffered_sources().len() ==> self.plan().has(
                Location::of_source((#[trigger] self.buffered_sources()[i]).0.0),
            )
    }

    /// The state once every buffered change is taken up; `None` where a count
    /// does not fit.
    pub open spec fn pending(self) -> Option<Ledger<T>> {
        taken_up(self.plan(), self.ledger(), self.buffered_targets(), self.buffered_sources())
    }

    /// Propagation from here comes to an end, and every count along it fits.
    pub open spec fn propagation_settles(self) -> bool {
        self.pending() matches Some(s) && settles(self.plan(), s)
    }

    /// Every buffered change is at a port of the graph, and propagation from
    /// here comes to an end within `steps` steps, with every count along it
    /// fitting.
    pub open spec fn settles_within(self, steps: nat) -> bool {
        &&& self.buffered_at_ports()
        &&& self.pending() matches Some(s) && settles_within(self.plan(), s, steps)
    }

    /// The state in which propagation from here ends.
    pub open spec fn propagated(self) -> Ledger<T> {
        settled(self.plan(), self.pending().unwrap())
    }

    /// A tracker of the graph that `builder` describes, in which nothing is
    /// held yet, and the summaries of the paths from each input of the scope
    /// (the output ports of node 0) to each of its outputs. The ports of the
    /// other nodes get the summaries of the paths from them to the outputs of the
    /// scope.
    pub fn allocate_from(builder: &Builder<T>) -> (r: (Self, Vec<Vec<Antichain<T::Summary>>>))
        requires
            builder.wf(),
            builder.nodes.len() > 0,
        ensures
            r.0.wf(),
            r.0.plan().nodes == nodes_view(builder.nodes),
            r.0.plan().edges == edges_view(builder.edges),
            forall|l: Location|
                r.0.plan().has(l) ==> #[trigger] r.0.plan().summaries[l] == if l.node == 0 {
                    Seq::<Seq<T::Summary>>::empty()
                } else {
                    surveyed::<T>(nodes_view(builder.nodes), edges_view(builder.edges))[l]
                },
            crate::summarize::antichains(
                nodes_view(builder.nodes),
                edges_view(builder.edges),
                surveyed::<T>(nodes_view(builder.nodes), edges_view(builder.edges)),
            ),
            r.0.ledger() == blank_ledger::<T>(nodes_view(builder.nodes), edges_view(builder.edges)),
            r.0.in_balance(),
            r.0.buffered_targets() == Seq::<((Target, T), i64)>::empty(),
            r.0.buffered_sources() == Seq::<((Source, T), i64)>::empty(),
            r.1.len() == builder.edges[0].len(),
            forall|p: int|
                0 <= p < r.1.len() ==> row_view(#[trigger] r.1[p]) == surveyed::<T>(
                    nodes_view(builder.nodes),
                    edges_view(builder.edges),
                )[Location { node: 0, port: Port::Source(p as usize) }],
    {
        let ghost nv = nodes_view(builder.nodes);
        let ghost ev = edges_view(builder.edges);
        let mut results = summarize_outputs::<T>(&builder.nodes, &builder.edges);
        let ghost res0 = results;
        let mut per_operator: Vec<PerOperator<T>> = Vec::new();
        let mut builder_summary: Vec<Vec<Antichain<T::Summary>>> = Vec::new();
        let mut n: usize = 0;
        while n < builder.shape.len()
            invariant
                0 <= n <= builder.shape.len(),
                builder.wf(),
                builder.nodes.len() > 0,
                nv == nodes_view(builder.nodes),
                ev == edges_view(builder.edges),
                res0.matches(nv, ev),
                results.targets.len() == res0.targets.len(),
                results.sources.len() == res0.sources.len(),
                forall|m: int| n <= m < res0.targets.len() ==> (#[trigger] results.targets[m]) == res0.targets[m],
                forall|m: int| n <= m < res0.sources.len() ==> (#[trigger] results.sources[m]) == res0.sources[m],
                per_operator.len() == n,
                forall|m: int|
                    0 <= m < n ==> (#[trigger] per_operator[m]).targets.len() == builder.nodes[m].len()
                        && per_operator[m].sources.len() == builder.edges[m].len(),
                forall|m: int, i: int|
                    0 <= m < n && 0 <= i < per_operator[m].targets.len() ==> fresh(
                        #[trigger] per_operator[m].targets[i],
                    ) && per_operator[m].targets[i].output_summaries@ == if m == 0 {
                        Seq::<Antichain<T::Summary>>::empty()
                    } else {
                        res0.targets[m][i]@
                    },
                forall|m: int, j: int|
                    0 <= m < n && 0 <= j < per_operator[m].sources.len() ==> fresh(
                        #[trigger] per_operator[m].sources[j],
                    ) && per_operator[m].sources[j].output_summaries@ == if m == 0 {
                        Seq::<Antichain<T::Summary>>::empty()
                    } else {
                        res0.sources[m][j]@
                    },
                n == 0 ==> builder_summary.len() == 0,
                n > 0 ==> builder_summary.len() == builder.edges[0].len(),
                n > 0 ==> forall|p: int|
                    0 <= p < builder_summary.len() ==> (#[trigger] builder_summary[p]) == res0.sources[0][p],
            decreases builder.shape.len() - n,
        {
            let inputs = builder.shape[n].0;
            let outputs = builder.shape[n].1;
            let mut operator: PerOperator<T> = PerOperator::new(inputs, outputs);
            if n == 0 {
                let mut p: usize = 0;
                while p < outputs
                    invariant
                        n == 0,
                        builder.nodes.len() > 0,
                        builder.wf(),
                        nv == nodes_view(builder.nodes),
                        ev == edges_view(builder.edges),
                        res0.matches(nv, ev),
                        0 <= p <= outputs,
                        outputs == builder.edges[0].len(),
                        res0.sources.len() > 0,
                        res0.sources[0].len() == outputs,
                        results.targets.len() == res0.targets.len(),
                        results.sources.len() == res0.sources.len(),
                        results.sources[0].len() == outputs,
                        forall|a: int| p <= a < outputs ==> (#[trigger] results.sources[0][a]) == res0.sources[0][a],
                        forall|m: int| 0 <= m < res0.targets.len() ==> (#[trigger] results.targets[m]) == res0.targets[m],
                        forall|m: int| 1 <= m < res0.sources.len() ==> (#[trigger] results.sources[m]) == res0.sources[m],
                        builder_summary.len() == p,
                        forall|a: int| 0 <= a < p ==> (#[trigger] builder_summary[a]) == res0.sources[0][a],
                    decreases outputs - p,
                {
                    let mut summaries: Vec<Antichain<T::Summary>> = Vec::new();
                    core::mem::swap(&mut results.sources[0][p], &mut summaries);
                    builder_summary.push(summaries);
                    p += 1;
                }
            } else {
                let mut i: usize = 0;
                while i < inputs
                    invariant
                        0 < n < builder.shape.len(),
                        builder.wf(),
                        nv == nodes_view(builder.nodes),
                        ev == edges_view(builder.edges),
                        res0.matches(nv, ev),
                        0 <= i <= inputs,
                        inputs == builder.nodes[n as int].len(),
                        outputs == builder.edges[n as int].len(),
                        res0.targets.len() == builder.nodes.len(),
                        res0.targets[n as int].len() == inputs,
                        results.targets.len() == res0.targets.len(),
                        results.sources.len() == res0.sources.len(),
                        results.targets[n as int].len() == inputs,
                        forall|a: int| i <= a < inputs ==> (#[trigger] results.targets[n as int][a]) == res0.targets[n as int][a],
                        forall|m: int| n < m < res0.targets.len() ==> (#[trigger] results.targets[m]) == res0.targets[m],
                        forall|m: int| n <= m < res0.sources.len() ==> (#[trigger] results.sources[m]) == res0.sources[m],
                        operator.targets.len() == inputs,
                        operator.sources.len() == outputs,
                        forall|a: int| 0 <= a < inputs ==> fresh(#[trigger] operator.targets[a]),
                        forall|a: int| 0 <= a < outputs ==> blank(#[trigger] operator.sources[a]),
                        forall|a: int|
                            0 <= a < i ==> (#[trigger] operator.targets[a]).output_summaries
                                == res0.targets[n as int][a],
                    decreases inputs - i,
                {
                    core::mem::swap(
                        &mut results.targets[n][i],
                        &mut operator.targets[i].output_summaries,
                    );
                    i += 1;
                }
                let mut j: usize = 0;
                while j < outputs
                    invariant
                        0 < n < builder.shape.len(),
                        builder.wf(),
                        nv == nodes_view(builder.nodes),
                        ev == edges_view(builder.edges),
                        res0.matches(nv, ev),
                        0 <= j <= outputs,
                        inputs == builder.nodes[n as int].len(),
                        outputs == builder.edges[n as int].len(),
                        res0.sources.len() == builder.edges.len(),
                        res0.sources[n as int].len() == outputs,
                        results.targets.len() == res0.targets.len(),
                        results.sources.len() == res0.sources.len(),
                        results.sources[n as int].len() == outputs,
                        forall|a: int| j <= a < outputs ==> (#[trigger] results.sources[n as int][a]) == res0.sources[n as int][a],
                        forall|m: int| n < m < res0.targets.len() ==> (#[trigger] results.targets[m]) == res0.targets[m],
                        forall|m: int| n < m < res0.sources.len() ==> (#[trigger] results.sources[m]) == res0.sources[m],
                        operator.targets.len() == inputs,
                        operator.sources.len() == outputs,
                        forall|a: int| 0 <= a < inputs ==> fresh(#[trigger] operator.targets[a]),
                        forall|a: int| 0 <= a < outputs ==> fresh(#[trigger] operator.sources[a]),
                        forall|a: int|
                            0 <= a < inputs ==> (#[trigger] operator.targets[a]).output_summaries
                                == res0.targets[n as int][a],
                        forall|a: int|
                            0 <= a < j ==> (#[trigger] operator.sources[a]).output_summaries
                                == res0.sources[n as int][a],
                    decreases outputs - j,
                {
                    core::mem::swap(
                        &mut results.sources[n][j],
                        &mut operator.sources[j].output_summaries,
                    );
                    j += 1;
                }
            }
            per_operator.push(operator);
            n += 1;
        }
        let scope_outputs = builder.shape[0].0;
        let mut output_changes: Vec<ChangeBatch<T>> = Vec::new();
        let mut o: usize = 0;
        while o < scope_outputs
            invariant
                0 <= o <= scope_outputs,
                output_changes.len() == o,
                forall|a: int|
                    0 <= a < o ==> (#[trigger] output_changes[a]).wf() && output_changes[a]@
                        == Seq::<(T, i64)>::empty(),
            decreases scope_outputs - o,
        {
            output_changes.push(ChangeBatch::new());
            o += 1;
        }
        let tracker = Tracker {
            nodes: duplicate_nodes(&builder.nodes),
            edges: duplicate_edges(&builder.edges),
            per_operator,
            target_changes: ChangeBatch::new(),
            source_changes: ChangeBatch::new(),
            worklist: Worklist::new(),
            pushed_changes: ChangeBatch::new(),
            output_changes,
            total_counts: 0,
        };
        proof {
            let found = surveyed::<T>(nv, ev);
            assert(nodes_view(tracker.nodes) == nv);
            assert(edges_view(tracker.edges) == ev);
            assert forall|m: int| 0 <= m < tracker.nodes.len() implies (#[trigger] tracker.nodes[m]).len()
                == builder.nodes[m].len() && tracker.edges[m].len() == builder.edges[m].len() by {
                assert(nodes_view(tracker.nodes)[m].len() == nv[m].len());
                assert(edges_view(tracker.edges)[m].len() == ev[m].len());
            }
            assert forall|l: Location| is_port(nv, ev, l) implies fresh(#[trigger] tracker.port(l))
                && row_view(tracker.port(l).output_summaries) == if l.node == 0 {
                Seq::<Seq<T::Summary>>::empty()
            } else {
                found[l]
            } by {
                let m = l.node as int;
                match l.port {
                    Port::Target(i) => {
                        assert(fresh(tracker.per_operator[m].targets[i as int]));
                        if m != 0 {
                            assert(tracker.per_operator[m].targets[i as int].output_summaries@
                                == res0.targets[m][i as int]@);
                            assert(res0.holds(l));
                            assert(row_view(tracker.per_operator[m].targets[i as int].output_summaries)
                                =~= row_view(res0.at(l)));
                        } else {
                            assert(row_view(tracker.per_operator[m].targets[i as int].output_summaries)
                                =~= Seq::<Seq<T::Summary>>::empty());
                        }
                    },
                    Port::Source(j) => {
                        assert(fresh(tracker.per_operator[m].sources[j as int]));
                        if m != 0 {
                            assert(tracker.per_operator[m].sources[j as int].output_summaries@
                                == res0.sources[m][j as int]@);
                            assert(res0.holds(l));
                            assert(row_view(tracker.per_operator[m].sources[j as int].output_summaries)
                                =~= row_view(res0.at(l)));
                        } else {
                            assert(row_view(tracker.per_operator[m].sources[j as int].output_summaries)
                                =~= Seq::<Seq<T::Summary>>::empty());
                        }
                    },
                }
            }
            assert forall|l: Location| is_port(nv, ev, l) implies (#[trigger] tracker.plan().summaries[l]).len()
                <= nv[0].len() by {
                assert(fresh(tracker.port(l)));
                if l.node != 0 {
                    assert(res0.at(l).len() <= builder.nodes[0].len());
                    assert(res0.holds(l));
                }
            }
            assert(tracker.ledger().pointstamps =~= blank_ledger::<T>(nv, ev).pointstamps) by {
                assert forall|l: Location| is_port(nv, ev, l) implies #[trigger] tracker.ledger().pointstamps[l]
                    == Seq::<(T, i64)>::empty() by {
                    assert(fresh(tracker.port(l)));
                }
            }
            assert(tracker.ledger().implications =~= blank_ledger::<T>(nv, ev).implications) by {
                assert forall|l: Location| is_port(nv, ev, l) implies #[trigger] tracker.ledger().implications[l]
                    == Seq::<(T, i64)>::empty() by {
                    assert(fresh(tracker.port(l)));
                }
            }
            assert(tracker.ledger().outputs =~= blank_ledger::<T>(nv, ev).outputs);
            assert(tracker.ledger() == blank_ledger::<T>(nv, ev));
            crate::graph::lemma_views_sized(tracker.nodes, tracker.edges);
            assert(tracker.plan().wf());
            assert(tracker.ledger().wf(tracker.plan()));
            assert(tracker.structured());
            crate::balance::lemma_blank_balanced(tracker.plan(), tracker.ledger());
            assert forall|p: int| 0 <= p < builder_summary.len() implies row_view(
                #[trigger] builder_summary[p],
            ) == found[Location { node: 0, port: Port::Source(p as usize) }] by {
                let l = Location { node: 0, port: Port::Source(p as usize) };
                assert(res0.holds(l));
                assert(builder_summary[p] == res0.at(l));
            }
        }
        (tracker, builder_summary)
    }

    /// Whether the change `value` to the count of the capabilities held at
    /// `location` at `time` can be buffered: whether, with what is buffered
    /// there, it adds up to a count.
    pub fn update_fits(&self, location: Location, time: &T, value: i64) -> (r: bool)
        ensures
            r == match location.port {
                Port::Target(port) => merged(
                    self.buffered_targets(),
                    (Target { node: location.node, port }, *time),
                    value,
                ) is Some,
                Port::Source(port) => merged(
                    self.buffered_sources(),
                    (Source { node: location.node, port }, *time),
                    value,
                ) is Some,
            },
    {
        match location.port {
            Port::Target(port) => {
                let key = (Target::new(location.node, port), time.duplicate());
                self.target_changes.fits(&key, value)
            },
            Port::Source(port) => {
                let key = (Source::new(location.node, port), time.duplicate());
                self.source_changes.fits(&key, value)
            },
        }
    }

    /// Buffers a change to the count of the capabilities held at `location` at
    /// `time`. Whether `location` is a port of the graph is not asked here, but
    /// where the change is taken up.
    pub fn update(&mut self, location: Location, time: T, value: i64)
        requires
            old(self).wf(),
            match location.port {
                Port::Target(port) => merged(
                    old(self).buffered_targets(),
                    (Target { node: location.node, port }, time),
                    value,
                ) is Some,
                Port::Source(port) => merged(
                    old(self).buffered_sources(),
                    (Source { node: location.node, port }, time),
                    value,
                ) is Some,
            },
        ensures
            final(self).wf(),
            final(self).plan() == old(self).plan(),
            final(self).ledger() == old(self).ledger(),
            match location.port {
                Port::Target(port) => {
                    &&& final(self).buffered_targets() == merged(
                        old(self).buffered_targets(),
                        (Target { node: location.node, port }, time),
                        value,
                    ).unwrap()
                    &&& final(self).buffered_sources() == old(self).buffered_sources()
                },
                Port::Source(port) => {
                    &&& final(self).buffered_sources() == merged(
                        old(self).buffered_sources(),
                        (Source { node: location.node, port }, time),
                        value,
                    ).unwrap()
                    &&& final(self).buffered_targets() == old(self).buffered_targets()
                },
            },
            old(self).buffered_at_ports() && old(self).plan().has(location)
                ==> final(self).buffered_at_ports(),
    {
        match location.port {
            Port::Target(port) => self.update_target(Target::new(location.node, port), time, value),
            Port::Source(port) => self.update_source(Source::new(location.node, port), time, value),
        };
    }

    /// Buffers a change to the count of the capabilities held at the input
    /// port `target` at `time`: the net change buffered for them grows by
    /// `value`, and nothing else changes.
    pub fn update_target(&mut self, target: Target, time: T, value: i64)
        requires
            old(self).wf(),
            merged(old(self).buffered_targets(), (target, time), value) is Some,
        ensures
            final(self).wf(),
            final(self).plan() == old(self).plan(),
            final(self).ledger() == old(self).ledger(),
            final(self).buffered_targets() == merged(
                old(self).buffered_targets(),
                (target, time),
                value,
            ).unwrap(),
            forall|key: (Target, T)|
                #[trigger] stored(final(self).buffered_targets(), key) == stored(
                    old(self).buffered_targets(),
                    key,
                ) + if key == (target, time) {
                    value as int
                } else {
                    0
                },
            final(self).buffered_sources() == old(self).buffered_sources(),
            old(self).buffered_at_ports() && old(self).plan().has(Location::of_target(target))
                ==> final(self).buffered_at_ports(),
    {
        proof {
            lemma_merged_keys(self.target_changes@, (target, time), value);
        }
        self.target_changes.update((target, time), value);
    }

    /// Buffers a change to the count of the capabilities held at the output
    /// port `source` at `time`: the net change buffered for them grows by
    /// `value`, and nothing else changes.
    pub fn update_source(&mut self, source: Source, time: T, value: i64)
        requires
            old(self).wf(),
            merged(old(self).buffered_sources(), (source, time), value) is Some,
        ensures
            final(self).wf(),
            final(self).plan() == old(self).plan(),
            final(self).ledger() == old(self).ledger(),
            final(self).buffered_sources() == merged(
                old(self).buffered_sources(),
                (source, time),
                value,
            ).unwrap(),
            forall|key: (Source, T)|
                #[trigger] stored(final(self).buffered_sources(), key) == stored(
                    old(self).buffered_sources(),
                    key,
                ) + if key == (source, time) {
                    value as int
                } else {
                    0
                },
            final(self).buffered_targets() == old(self).buffered_targets(),
            old(self).buffered_at_ports() && old(self).plan().has(Location::of_source(source))
                ==> final(self).buffered_at_ports(),
    {
        proof {
            lemma_merged_keys(self.source_changes@, (source, time), value);
        }
        self.source_changes.update((source, time), value);
    }

    /// Whether `location` is a port of the graph.
    pub fn has_port(&self, location: Location) -> (r: bool)
        requires
            self.wf(),
        ensures
            r == self.plan().has(location),
    {
        if location.node < self.per_operator.len() {
            match location.port {
                Port::Target(port) => port < self.per_operator[location.node].targets.len(),
                Port::Source(port) => port < self.per_operator[location.node].sources.len(),
            }
        } else {
            false
        }
    }

    /// Whether every buffered change is at a port of the graph.
    pub fn buffers_at_ports(&self) -> (r: bool)
        requires
            self.wf(),
        ensures
            r == self.buffered_at_ports(),
    {
        let mut i: usize = 0;
        while i < self.target_changes.len()
            invariant
                self.wf(),
                0 <= i <= self.target_changes@.len(),
                forall|a: int|
                    0 <= a < i ==> self.plan().has(
                        Location::of_target((#[trigger] self.buffered_targets()[a]).0.0),
                    ),
            decreases self.target_changes@.len() - i,
        {
            let target = self.target_changes.entry(i).0.0;
            if !self.has_port(Location::from_target(target)) {
                assert(!self.plan().has(Location::of_target(self.buffered_targets()[i as int].0.0)));
                return false;
            }
            i += 1;
        }
        let mut j: usize = 0;
        while j < self.source_changes.len()
            invariant
                self.wf(),
                0 <= j <= self.source_changes@.len(),
                forall|a: int|
                    0 <= a < self.buffered_targets().len() ==> self.plan().has(
                        Location::of_target((#[trigger] self.buffered_targets()[a]).0.0),
                    ),
                forall|a: int|
                    0 <= a < j ==> self.plan().has(
                        Location::of_source((#[trigger] self.buffered_sources()[a]).0.0),
                    ),
            decreases self.source_changes@.len() - j,
        {
            let source = self.source_changes.entry(j).0.0;
            if !self.has_port(Location::from_source(source)) {
                assert(!self.plan().has(Location::of_source(self.buffered_sources()[j as int].0.0)));
                return false;
            }
            j += 1;
        }
        true
    }

    /// Whether anything is tracked: a change is buffered, or the frontiers of
    /// the capabilities held are not all empty.
    pub fn tracking_anything(&mut self) -> (r: bool)
        ensures
            *final(self) == *old(self),
            r == (old(self).buffered_sources().len() > 0 || old(self).buffered_targets().len() > 0
                || old(self).ledger().total > 0),
    {
        !self.source_changes.is_empty() || !self.target_changes.is_empty() || self.total_counts > 0
    }

    /// Takes up every buffered change and circulates what follows from them
    /// until nothing is pending.
    pub fn propagate_all(&mut self)
        requires
            old(self).wf(),
            old(self).buffered_at_ports(),
            old(self).propagation_settles(),
        ensures
            final(self).wf(),
            final(self).plan() == old(self).plan(),
            final(self).ledger() == old(self).propagated(),
            final(self).ledger().worklist.len() == 0,
            final(self).buffered_targets().len() == 0,
            final(self).buffered_sources().len() == 0,
            old(self).in_balance() ==> final(self).in_balance(),
            forall|v: Location, t: T|
                old(self).plan().has(v) ==> #[trigger] reported(final(self).ledger(), v, t) == reported(
                    old(self).ledger(),
                    v,
                    t,
                ),
    {
        proof {
            old(self).lemma_propagated();
        }
        let ghost plan = self.plan();
        let taken = self.take_up();
        assert(taken);
        let ghost start = self.ledger();
        let ghost n: nat = choose|n: nat| quiet_after(plan, start, n);
        let ghost mut done: nat = 0;
        proof {
            old(self).lemma_wf_parts();
        }
        while !self.settled()
            invariant
                self.wf(),
                self.plan() == plan,
                self.buffered_targets().len() == 0,
                self.buffered_sources().len() == 0,
                plan.wf(),
                start.wf(plan),
                done <= n,
                quiet_after(plan, start, n),
                run(plan, start, done) == Some(self.ledger()),
            decreases n - done,
        {
            proof {
                lemma_run_fits(plan, start, n, done);
                if done == n {
                    assert(false);
                }
                lemma_run_fits(plan, start, n, done + 1);
                assert(run(plan, start, (done + 1) as nat) == step(plan, self.ledger()));
            }
            let stepped = self.step_once();
            assert(stepped);
            proof {
                done = done + 1;
            }
        }
        proof {
            crate::propagation::lemma_run_stays(plan, start, done, n);
        }
    }

    /// Whether every buffered change is at a port of the graph and
    /// propagation from here ends within `steps` steps without a sum that is
    /// not a count. It is tried on a copy; the tracker stays as it is.
    pub fn propagation_fits(&self, steps: usize) -> (r: bool)
        requires
            self.wf(),
        ensures
            r == self.settles_within(steps as nat),
            r ==> self.propagation_settles(),
    {
        if !self.buffers_at_ports() {
            return false;
        }
        let mut trial = self.duplicate();
        let ghost plan = self.plan();
        if !trial.take_up() {
            return false;
        }
        let ghost start = trial.ledger();
        let ghost mut done: nat = 0;
        let mut left = steps;
        loop
            invariant
                trial.wf(),
                trial.plan() == plan,
                plan == self.plan(),
                self.buffered_at_ports(),
                self.pending() == Some(start),
                run(plan, start, done) == Some(trial.ledger()),
                done + left == steps,
                forall|i: nat| i < done ==> !quiet_after(plan, start, i),
            decreases left,
        {
            if trial.settled() {
                proof {
                    assert(quiet_after(plan, start, done));
                }
                return true;
            }
            if left == 0 {
                proof {
                    assert forall|n: nat| n <= steps implies !quiet_after(plan, start, n) by {
                        lemma_not_yet(plan, start, done, n);
                    }
                }
                return false;
            }
            left = left - 1;
            if !trial.step_once() {
                proof {
                    assert(run(plan, start, done + 1) is None);
                    assert forall|n: nat| n <= steps implies !quiet_after(plan, start, n) by {
                        if n <= done {
                            lemma_not_yet(plan, start, done, n);
                        } else {
                            crate::propagation::lemma_run_none(plan, start, done + 1, n);
                        }
                    }
                }
                return false;
            }
            proof {
                done = done + 1;
            }
        }
    }

    /// Propagates where every buffered change is at a port of the graph and
    /// propagation ends within `steps` steps without a sum that is not a
    /// count, and says so; leaves the tracker as it is otherwise.
    pub fn try_propagate_all(&mut self, steps: usize) -> (done: bool)
        requires
            old(self).wf(),
        ensures
            done == old(self).settles_within(steps as nat),
            done ==> old(self).propagation_settles(),
            done ==> final(self).wf(),
            done ==> final(self).plan() == old(self).plan(),
            done ==> final(self).ledger() == old(self).propagated(),
            done ==> final(self).ledger().worklist.len() == 0,
            done ==> final(self).buffered_targets().len() == 0,
            done ==> final(self).buffered_sources().len() == 0,
            done && old(self).in_balance() ==> final(self).in_balance(),
            done ==> forall|v: Location, t: T|
                old(self).plan().has(v) ==> #[trigger] reported(final(self).ledger(), v, t) == reported(
                    old(self).ledger(),
                    v,
                    t,
                ),
            !done ==> *final(self) == *old(self),
    {
        if self.propagation_fits(steps) {
            self.propagate_all();
            true
        } else {
            false
        }
    }

    /// A copy of the tracker.
    pub fn duplicate(&self) -> (r: Self)
        requires
            self.wf(),
        ensures
            r.wf(),
            r.plan() == self.plan(),
            r.ledger() == self.ledger(),
            r.buffered_targets() == self.buffered_targets(),
            r.buffered_sources() == self.buffered_sources(),
    {
        let mut per_operator: Vec<PerOperator<T>> = Vec::new();
        let mut n: usize = 0;
        while n < self.per_operator.len()
            invariant
                0 <= n <= self.per_operator.len(),
                per_operator.len() == n,
                forall|m: int|
                    0 <= m < n ==> (#[trigger] per_operator[m]).targets.len()
                        == self.per_operator[m].targets.len() && per_operator[m].sources.len()
                        == self.per_operator[m].sources.len(),
                forall|m: int, i: int|
                    0 <= m < n && 0 <= i < per_operator[m].targets.len() ==> alike(
                        #[trigger] per_operator[m].targets[i],
                        self.per_operator[m].targets[i],
                    ),
                forall|m: int, j: int|
                    0 <= m < n && 0 <= j < per_operator[m].sources.len() ==> alike(
                        #[trigger] per_operator[m].sources[j],
                        self.per_operator[m].sources[j],
                    ),
            decreases self.per_operator.len() - n,
        {
            let operator = &self.per_operator[n];
            let mut targets: Vec<PortInformation<T>> = Vec::new();
            let mut i: usize = 0;
            while i < operator.targets.len()
                invariant
                    0 <= i <= operator.targets.len(),
                    targets.len() == i,
                    forall|a: int| 0 <= a < i ==> alike(#[trigger] targets[a], operator.targets[a]),
                decreases operator.targets.len() - i,
            {
                targets.push(operator.targets[i].duplicate());
                i += 1;
            }
            let mut sources: Vec<PortInformation<T>> = Vec::new();
            let mut j: usize = 0;
            while j < operator.sources.len()
                invariant
                    0 <= j <= operator.sources.len(),
                    sources.len() == j,
                    forall|a: int| 0 <= a < j ==> alike(#[trigger] sources[a], operator.sources[a]),
                decreases operator.sources.len() - j,
            {
                sources.push(operator.sources[j].duplicate());
                j += 1;
            }
            per_operator.push(PerOperator { targets, sources });
            n += 1;
        }
        let mut output_changes: Vec<ChangeBatch<T>> = Vec::new();
        let mut o: usize = 0;
        while o < self.output_changes.len()
            invariant
                0 <= o <= self.output_changes.len(),
                output_changes.len() == o,
                forall|a: int| 0 <= a < o ==> (#[trigger] output_changes[a])@ == self.output_changes[a]@,
            decreases self.output_changes.len() - o,
        {
            output_changes.push(self.output_changes[o].duplicate());
            o += 1;
        }
        let copy = Tracker {
            nodes: duplicate_nodes(&self.nodes),
            edges: duplicate_edges(&self.edges),
            per_operator,
            target_changes: self.target_changes.duplicate(),
            source_changes: self.source_changes.duplicate(),
            worklist: self.worklist.duplicate(),
            pushed_changes: self.pushed_changes.duplicate(),
            output_changes,
            total_counts: self.total_counts,
        };
        proof {
            let nv = nodes_view(self.nodes);
            let ev = edges_view(self.edges);
            assert(nodes_view(copy.nodes) == nv);
            assert(edges_view(copy.edges) == ev);
            assert forall|m: int| 0 <= m < copy.nodes.len() implies (#[trigger] copy.nodes[m]).len()
                == self.nodes[m].len() && copy.edges[m].len() == self.edges[m].len() by {
                assert(nodes_view(copy.nodes)[m].len() == nv[m].len());
                assert(edges_view(copy.edges)[m].len() == ev[m].len());
            }
            assert forall|l: Location| is_port(nv, ev, l) implies alike(
                #[trigger] port_of(copy.per_operator, l),
                port_of(self.per_operator, l),
            ) by {
                match l.port {
                    Port::Target(i) => {
                        assert(alike(
                            copy.per_operator[l.node as int].targets[i as int],
                            self.per_operator[l.node as int].targets[i as int],
                        ));
                    },
                    Port::Source(j) => {
                        assert(alike(
                            copy.per_operator[l.node as int].sources[j as int],
                            self.per_operator[l.node as int].sources[j as int],
                        ));
                    },
                }
            }
            assert(copy.plan().summaries =~= self.plan().summaries);
            assert(copy.ledger().pointstamps =~= self.ledger().pointstamps);
            assert(copy.ledger().implications =~= self.ledger().implications);
            assert(copy.ledger().outputs =~= self.ledger().outputs);
            assert forall|m: int|
                0 <= m < copy.per_operator.len() implies (#[trigger] copy.per_operator[m]).targets.len()
                == copy.nodes[m].len() && copy.per_operator[m].sources.len() == copy.edges[m].len() by {
                assert(self.per_operator[m].targets.len() == self.nodes[m].len());
            }
            assert forall|m: int, i: int|
                0 <= m < copy.per_operator.len() && 0 <= i < copy.per_operator[m].targets.len() implies {
                &&& (#[trigger] copy.per_operator[m].targets[i]).pointstamps.wf()
                &&& copy.per_operator[m].targets[i].implications.wf()
            } by {
                assert(alike(copy.per_operator[m].targets[i], self.per_operator[m].targets[i]));
                assert(self.per_operator[m].targets[i].pointstamps.wf());
            }
            assert forall|m: int, j: int|
                0 <= m < copy.per_operator.len() && 0 <= j < copy.per_operator[m].sources.len() implies {
                &&& (#[trigger] copy.per_operator[m].sources[j]).pointstamps.wf()
                &&& copy.per_operator[m].sources[j].implications.wf()
            } by {
                assert(alike(copy.per_operator[m].sources[j], self.per_operator[m].sources[j]));
                assert(self.per_operator[m].sources[j].pointstamps.wf());
            }
            assert forall|a: int| 0 <= a < copy.output_changes.len() implies (
            #[trigger] copy.output_changes[a]).wf() by {
                assert(self.output_changes[a].wf());
            }
            assert(copy.structured());
        }
        copy
    }

    /// The changes to the frontiers of implications since they were last taken.
    pub fn pushed(&mut self) -> (r: &mut ChangeBatch<(Location, T)>)
        ensures
            r@ == old(self).ledger().pushed,
            old(self).wf() ==> r.wf(),
            final(self).plan() == old(self).plan(),
            final(self).ledger() == (Ledger { pushed: final(r)@, ..old(self).ledger() }),
            final(self).buffered_targets() == old(self).buffered_targets(),
            final(self).buffered_sources() == old(self).buffered_sources(),
            old(self).wf() && final(r).wf() ==> final(self).wf(),
    {
        &mut self.pushed_changes
    }

    /// For each output of the scope, the changes to what the capabilities held
    /// imply there since they were last taken.
    pub fn pushed_output(&mut self) -> (r: &mut [ChangeBatch<T>])
        ensures
            r@.len() == old(self).ledger().outputs.len(),
            forall|o: int| 0 <= o < r@.len() ==> (#[trigger] r@[o])@ == old(self).ledger().outputs[o],
            old(self).wf() ==> forall|o: int| 0 <= o < r@.len() ==> (#[trigger] r@[o]).wf(),
            final(self).plan() == old(self).plan(),
            final(self).ledger() == (Ledger {
                outputs: Seq::new(final(r)@.len(), |o: int| final(r)@[o]@),
                ..old(self).ledger()
            }),
            final(self).buffered_targets() == old(self).buffered_targets(),
            final(self).buffered_sources() == old(self).buffered_sources(),
            old(self).wf() && final(r)@.len() == r@.len() && (forall|o: int|
                0 <= o < final(r)@.len() ==> (#[trigger] final(r)@[o]).wf()) ==> final(self).wf(),
    {
        self.output_changes.as_mut_slice()
    }

    /// What is tracked at the ports of node `index`: at each port the counts
    /// that the state holds for it, their frontiers, and the summaries that the
    /// graph holds for it.
    pub fn node_state(&self, index: usize) -> (r: &PerOperator<T>)
        requires
            self.wf(),
            index < self.plan().nodes.len(),
        ensures
            r.targets.len() == self.plan().nodes[index as int].len(),
            r.sources.len() == self.plan().edges[index as int].len(),
            forall|i: int|
                0 <= i < r.targets.len() ==> (#[trigger] r.targets[i]) == self.port(
                    Location { node: index, port: Port::Target(i as usize) },
                ),
            forall|j: int|
                0 <= j < r.sources.len() ==> (#[trigger] r.sources[j]) == self.port(
                    Location { node: index, port: Port::Source(j as usize) },
                ),
            forall|i: int|
                0 <= i < r.targets.len() ==> shows(
                    #[trigger] r.targets[i],
                    self.plan(),
                    self.ledger(),
                    Location { node: index, port: Port::Target(i as usize) },
                ),
            forall|j: int|
                0 <= j < r.sources.len() ==> shows(
                    #[trigger] r.sources[j],
                    self.plan(),
                    self.ledger(),
                    Location { node: index, port: Port::Source(j as usize) },
                ),
    {
        proof {
            assert forall|i: int| 0 <= i < self.per_operator[index as int].targets.len() implies shows(
                #[trigger] self.per_operator[index as int].targets[i],
                self.plan(),
                self.ledger(),
                Location { node: index, port: Port::Target(i as usize) },
            ) by {
                self.lemma_port(Location { node: index, port: Port::Target(i as usize) });
            }
            assert forall|j: int| 0 <= j < self.per_operator[index as int].sources.len() implies shows(
                #[trigger] self.per_operator[index as int].sources[j],
                self.plan(),
                self.ledger(),
                Location { node: index, port: Port::Source(j as usize) },
            ) by {
                self.lemma_port(Location { node: index, port: Port::Source(j as usize) });
            }
        }
        &self.per_operator[index]
    }

    /// What is tracked at a port of the graph is what the state and the graph
    /// hold for it.
    pub proof fn lemma_port(self, loc: Location)
        requires
            self.wf(),
            self.plan().has(loc),
        ensures
            shows(self.port(loc), self.plan(), self.ledger(), loc),
    {
        match loc.port {
            Port::Target(i) => {
                assert(self.per_operator[loc.node as int].targets[i as int].pointstamps.wf());
            },
            Port::Source(j) => {
                assert(self.per_operator[loc.node as int].sources[j as int].pointstamps.wf());
            },
        }
    }

    /// Whether the capability at `location` and `time` alone holds back the
    /// frontier of implications there: no timestamp of that frontier is strictly
    /// less than `time`, and the count of `time` among the implications is
    /// one.
    pub fn is_global(&self, location: Location, time: &T) -> (r: bool)
        requires
            self.wf(),
            self.plan().has(location),
        ensures
            r == (!undercut(frontier_of(self.ledger().implications[location]), *time) && stored(
                self.ledger().implications[location],
                *time,
            ) == 1),
    {
        match location.port {
            Port::Target(port) => self.per_operator[location.node].targets[port].is_global(time),
            Port::Source(port) => self.per_operator[location.node].sources[port].is_global(time),
        }
    }

    /// At every port and timestamp, what counts among the implications and
    /// what is pending is what is due there; and the total is the number of
    /// timestamps in the frontiers of the capabilities held.
    pub open spec fn in_balance(self) -> bool {
        balanced(self.plan(), self.ledger())
    }

    /// What propagation comes to: it keeps the balance, and it pushes exactly
    /// the changes of the frontiers of the implications.
    pub proof fn lemma_propagated(self)
        requires
            self.wf(),
            self.buffered_at_ports(),
            self.propagation_settles(),
        ensures
            self.propagated().wf(self.plan()),
            self.propagated().worklist.len() == 0,
            self.in_balance() ==> balanced(self.plan(), self.propagated()),
            forall|v: Location, t: T|
                self.plan().has(v) ==> #[trigger] reported(self.propagated(), v, t) == reported(
                    self.ledger(),
                    v,
                    t,
                ),
    {
        self.lemma_wf_parts();
        let plan = self.plan();
        let s = self.ledger();
        let targets = self.buffered_targets();
        let sources = self.buffered_sources();
        crate::propagation::lemma_taken_up_fits(plan, s, targets, sources);
        let taken = taken_up(plan, s, targets, sources).unwrap();
        let n = choose|n: nat| quiet_after(plan, taken, n);
        lemma_run_fits(plan, taken, n, n);
        if self.in_balance() {
            crate::balance::lemma_propagation_balanced(plan, s, targets, sources);
        }
        assert forall|v: Location, t: T| plan.has(v) implies #[trigger] reported(self.propagated(), v, t)
            == reported(s, v, t) by {
            crate::balance::lemma_propagation_effect(plan, s, targets, sources, v, t);
        }
    }

    /// Conservation: in a graph without a cycle, a tracker in balance in
    /// which nothing is pending and whose total is not positive has the total
    /// nothing, holds no capability in a frontier, and implies nothing.
    pub proof fn lemma_nothing_tracked(self)
        requires
            self.wf(),
            self.in_balance(),
            !crate::acyclic::has_cycle(self.plan().nodes, self.plan().edges, T::Summary::identity()),
            self.ledger().worklist.len() == 0,
            self.ledger().total <= 0,
        ensures
            self.ledger().total == 0,
            nothing_held(self.plan(), self.ledger()),
            nothing_implied(self.plan(), self.ledger()),
    {
        self.lemma_wf_parts();
        crate::balance::lemma_conservation(self.plan(), self.ledger());
    }

    /// What a tracker in order is made of is in order.
    pub proof fn lemma_wf_parts(self)
        requires
            self.wf(),
        ensures
            self.plan().wf(),
            self.ledger().wf(self.plan()),
    {
    }

    /// Propagation from a tracker in order comes to an end where its graph
    /// has no cycle along which timestamps stay as they are, and where no
    /// count along the way fails to fit.
    pub proof fn lemma_propagation_settles(self)
        requires
            self.wf(),
            self.buffered_at_ports(),
            !crate::acyclic::has_cycle(self.plan().nodes, self.plan().edges, T::Summary::identity()),
            self.pending() is Some,
            forall|n: nat| #[trigger] run(self.plan(), self.pending().unwrap(), n) is Some,
        ensures
            self.propagation_settles(),
    {
        self.lemma_wf_parts();
        crate::propagation::lemma_taken_up_fits(
            self.plan(),
            self.ledger(),
            self.buffered_targets(),
            self.buffered_sources(),
        );
        crate::ending::lemma_propagation_ends(self.plan(), self.pending().unwrap());
    }

    /// Takes up one buffered change: adds `diff` to the count of `time` among
    /// the capabilities held at `location`, and notes the changes of their
    /// frontier. Gives up, and says so, where a sum is not a count.
    fn absorb(&mut self, location: Location, time: T, diff: i64) -> (ok: bool)
        requires
            old(self).wf(),
            old(self).plan().has(location),
        ensures
            ok == absorbed_one(old(self).plan(), old(self).ledger(), location, time, diff) is Some,
            ok ==> final(self).wf(),
            ok ==> final(self).plan() == old(self).plan(),
            ok ==> final(self).ledger() == absorbed_one(
                old(self).plan(),
                old(self).ledger(),
                location,
                time,
                diff,
            ).unwrap(),
            ok ==> final(self).buffered_targets() == old(self).buffered_targets(),
            ok ==> final(self).buffered_sources() == old(self).buffered_sources(),
    {
        let ghost plan = self.plan();
        let ghost s0 = self.ledger();
        let fits = match location.port {
            Port::Target(i) => self.per_operator[location.node].targets[i].pointstamps.fits(&time, diff),
            Port::Source(j) => self.per_operator[location.node].sources[j].pointstamps.fits(&time, diff),
        };
        if !fits {
            return false;
        }
        let mut batch: Vec<(T, i64)> = Vec::new();
        batch.push((time, diff));
        proof {
            assert(batch@ == seq![(time, diff)]);
            lemma_applied_one(s0.pointstamps[location], time, diff);
            crate::change_batch::lemma_merged_consolidated(s0.pointstamps[location], time, diff);
        }
        let changes = match location.port {
            Port::Target(i) => self.per_operator[location.node].targets[i].pointstamps.update_iter(
                batch,
            ),
            Port::Source(j) => self.per_operator[location.node].sources[j].pointstamps.update_iter(
                batch,
            ),
        };
        let ghost counts = merged(s0.pointstamps[location], time, diff).unwrap();
        let ghost s1 = Ledger { pointstamps: s0.pointstamps.insert(location, counts), ..s0 };
        let ghost goal = absorbed_one(plan, s0, location, time, diff);
        proof {
            assert(self.plan().summaries =~= plan.summaries);
            assert(self.ledger().pointstamps =~= s1.pointstamps);
            assert(self.ledger().implications =~= s1.implications);
            assert(self.ledger() == s1);
            assert(s1.wf(plan));
        }
        let mut c: usize = 0;
        while c < changes.len()
            invariant
                0 <= c <= changes.len(),
                self.wf(),
                self.plan() == plan,
                plan.has(location),
                self.buffered_targets() == old(self).buffered_targets(),
                self.buffered_sources() == old(self).buffered_sources(),
                noted(plan, self.ledger(), location, changes@, c as int) == goal,
                goal == absorbed_one(old(self).plan(), old(self).ledger(), location, time, diff),
            decreases changes.len() - c,
        {
            let t = changes[c].0.duplicate();
            let d = changes[c].1;
            let ghost before = self.ledger();
            match self.total_counts.checked_add(d) {
                None => {
                    assert(goal is None);
                    return false;
                },
                Some(total) => {
                    self.total_counts = total;
                },
            }
            let projects = match location.port {
                Port::Target(i) => project(
                    &mut self.output_changes,
                    &self.per_operator[location.node].targets[i].output_summaries,
                    &t,
                    d,
                ),
                Port::Source(j) => project(
                    &mut self.output_changes,
                    &self.per_operator[location.node].sources[j].output_summaries,
                    &t,
                    d,
                ),
            };
            if !projects {
                assert(goal is None);
                return false;
            }
            proof {
                lemma_projected_fits(before.outputs, plan.summaries[location], 0, 0, t, d);
                lemma_enqueued_fits(plan, before.worklist, (t, location, d));
            }
            self.worklist.push(t, location, d);
            proof {
                assert(self.plan().summaries =~= plan.summaries);
                assert(self.ledger().pointstamps =~= before.pointstamps);
                assert(self.ledger().implications =~= before.implications);
            }
            c += 1;
        }
        true
    }

    /// Applies a change to implications: adds `diff` to the count of `time`
    /// among the implications at `location`, and relays the changes of their
    /// frontier downstream. Gives up, and says so, where a sum is not a count.
    fn advance(&mut self, location: Location, time: T, diff: i64) -> (ok: bool)
        requires
            old(self).wf(),
            old(self).plan().has(location),
        ensures
            ok == moved(old(self).plan(), old(self).ledger(), location, time, diff) is Some,
            ok ==> final(self).wf(),
            ok ==> final(self).plan() == old(self).plan(),
            ok ==> final(self).ledger() == moved(
                old(self).plan(),
                old(self).ledger(),
                location,
                time,
                diff,
            ).unwrap(),
            ok ==> final(self).buffered_targets() == old(self).buffered_targets(),
            ok ==> final(self).buffered_sources() == old(self).buffered_sources(),
    {
        let ghost plan = self.plan();
        let ghost s0 = self.ledger();
        let fits = match location.port {
            Port::Target(i) => self.per_operator[location.node].targets[i].implications.fits(&time, diff),
            Port::Source(j) => self.per_operator[location.node].sources[j].implications.fits(&time, diff),
        };
        if !fits {
            return false;
        }
        let mut batch: Vec<(T, i64)> = Vec::new();
        batch.push((time, diff));
        proof {
            assert(batch@ == seq![(time, diff)]);
            lemma_applied_one(s0.implications[location], time, diff);
            crate::change_batch::lemma_merged_consolidated(s0.implications[location], time, diff);
        }
        let changes = match location.port {
            Port::Target(i) => self.per_operator[location.node].targets[i].implications.update_iter(
                batch,
            ),
            Port::Source(j) => self.per_operator[location.node].sources[j].implications.update_iter(
                batch,
            ),
        };
        let ghost counts = merged(s0.implications[location], time, diff).unwrap();
        let ghost s1 = Ledger { implications: s0.implications.insert(location, counts), ..s0 };
        let ghost goal = moved(plan, s0, location, time, diff);
        proof {
            assert(self.plan().summaries =~= plan.summaries);
            assert(self.ledger().pointstamps =~= s1.pointstamps);
            assert(self.ledger().implications =~= s1.implications);
            assert(self.ledger() == s1);
            assert(s1.wf(plan));
        }
        let mut c: usize = 0;
        while c < changes.len()
            invariant
                0 <= c <= changes.len(),
                self.wf(),
                self.plan() == plan,
                plan.has(location),
                self.buffered_targets() == old(self).buffered_targets(),
                self.buffered_sources() == old(self).buffered_sources(),
                relayed(plan, self.ledger(), location, changes@, c as int) == goal,
                goal == moved(old(self).plan(), old(self).ledger(), location, time, diff),
            decreases changes.len() - c,
        {
            let t = changes[c].0.duplicate();
            let d = changes[c].1;
            let ghost before = self.ledger();
            match location.port {
                Port::Target(i) => {
                    proof {
                        lemma_crossed_fits(
                            plan,
                            before.worklist,
                            plan.nodes[location.node as int][i as int],
                            location.node,
                            0,
                            0,
                            t,
                            d,
                        );
                    }
                    cross(&mut self.worklist, &self.nodes[location.node][i], location.node, &t, d);
                },
                Port::Source(j) => {
                    proof {
                        let targets = plan.edges[location.node as int][j as int];
                        assert forall|a: int| 0 <= a < targets.len() implies plan.has(
                            Location::of_target(#[trigger] targets[a]),
                        ) by {
                            assert(targets[a] == plan.edges[location.node as int][j as int][a]);
                        }
                        lemma_sent_fits(plan, before.worklist, targets, 0, t, d);
                    }
                    send(&mut self.worklist, &self.edges[location.node][j], &t, d);
                },
            }
            let key = (location, t);
            if !self.pushed_changes.fits(&key, d) {
                assert(goal is None);
                return false;
            }
            proof {
                crate::change_batch::lemma_merged_consolidated(before.pushed, key, d);
            }
            self.pushed_changes.update(key, d);
            proof {
                assert(self.plan().summaries =~= plan.summaries);
                assert(self.ledger().pointstamps =~= before.pointstamps);
                assert(self.ledger().implications =~= before.implications);
            }
            c += 1;
        }
        true
    }

    /// Takes up every buffered change, those at input ports first. Gives up,
    /// and says so, where a sum is not a count.
    fn take_up(&mut self) -> (ok: bool)
        requires
            old(self).wf(),
            old(self).buffered_at_ports(),
        ensures
            ok == old(self).pending() is Some,
            ok ==> final(self).wf(),
            ok ==> final(self).plan() == old(self).plan(),
            ok ==> final(self).ledger() == old(self).pending().unwrap(),
            ok ==> final(self).buffered_targets().len() == 0,
            ok ==> final(self).buffered_sources().len() == 0,
    {
        let ghost plan = self.plan();
        let ghost s0 = self.ledger();
        let ghost sources0 = self.source_changes@;
        let targets = self.target_changes.drain();
        let ghost after_targets = absorbed_targets(plan, s0, targets@, 0);
        let mut e: usize = 0;
        while e < targets.len()
            invariant
                0 <= e <= targets.len(),
                self.wf(),
                self.plan() == plan,
                self.buffered_targets().len() == 0,
                self.buffered_sources() == sources0,
                forall|i: int|
                    0 <= i < targets@.len() ==> plan.has(
                        Location::of_target((#[trigger] targets@[i]).0.0),
                    ),
                absorbed_targets(plan, self.ledger(), targets@, e as int) == after_targets,
                old(self).pending() == match after_targets {
                    None => None,
                    Some(m) => absorbed_sources(plan, m, sources0, 0),
                },
            decreases targets.len() - e,
        {
            let target = targets[e].0.0;
            let time = targets[e].0.1.duplicate();
            if !self.absorb(Location::from_target(target), time, targets[e].1) {
                assert(after_targets is None);
                return false;
            }
            e += 1;
        }
        let ghost s1 = self.ledger();
        let sources = self.source_changes.drain();
        let ghost after_sources = absorbed_sources(plan, s1, sources@, 0);
        let mut e: usize = 0;
        while e < sources.len()
            invariant
                0 <= e <= sources.len(),
                self.wf(),
                self.plan() == plan,
                self.buffered_targets().len() == 0,
                self.buffered_sources().len() == 0,
                forall|i: int|
                    0 <= i < sources@.len() ==> plan.has(
                        Location::of_source((#[trigger] sources@[i]).0.0),
                    ),
                absorbed_sources(plan, self.ledger(), sources@, e as int) == after_sources,
                old(self).pending() == after_sources,
            decreases sources.len() - e,
        {
            let source = sources[e].0.0;
            let time = sources[e].0.1.duplicate();
            if !self.absorb(Location::from_source(source), time, sources[e].1) {
                assert(after_sources is None);
                return false;
            }
            e += 1;
        }
        true
    }

    /// Takes one step of propagation: takes the least pending change out,
    /// with the others at its timestamp and port, and applies their sum to the
    /// implications there. Gives up, and says so, where a sum is not a count.
    fn step_once(&mut self) -> (ok: bool)
        requires
            old(self).wf(),
            old(self).ledger().worklist.len() > 0,
        ensures
            ok == step(old(self).plan(), old(self).ledger()) is Some,
            ok ==> final(self).wf(),
            ok ==> final(self).plan() == old(self).plan(),
            ok ==> final(self).ledger() == step(old(self).plan(), old(self).ledger()).unwrap(),
            ok ==> final(self).buffered_targets() == old(self).buffered_targets(),
            ok ==> final(self).buffered_sources() == old(self).buffered_sources(),
    {
        let ghost plan = self.plan();
        let ghost before = self.ledger();
        match self.worklist.pop() {
            None => true,
            Some(least) => {
                let (time, location, diff) = least;
                match self.worklist.gather(&time, &location, diff) {
                    None => false,
                    Some(sum) => {
                        proof {
                            crate::worklist::lemma_gathered(
                                before.worklist.drop_last(),
                                time,
                                location,
                                diff,
                            );
                            let rest = self.worklist@;
                            assert forall|i: int| 0 <= i < rest.len() implies rest[i]
                                == before.worklist[i] by {
                                assert(rest[i] == before.worklist.drop_last().take(
                                    rest.len() as int,
                                )[i]);
                            }
                            assert(self.ledger() == (Ledger { worklist: rest, ..before }));
                            assert(plan.has(location));
                        }
                        if sum != 0 {
                            self.advance(location, time, sum)
                        } else {
                            true
                        }
                    },
                }
            },
        }
    }

    /// Whether nothing is pending.
    fn settled(&self) -> (r: bool)
        ensures
            r == (self.ledger().worklist.len() == 0),
    {
        self.worklist.is_empty()
    }
}

} // verus!
