//! What propagation computes, as functions on the state of a tracker.
//!
//! The state that propagation changes is a [`Ledger`]; the graph that it follows
//! is a [`Plan`]. `absorbed_one` is the taking up of one buffered change, `step`
//! the handling of the least pending change, and `run` a number of steps. Each
//! gives `None` where a count would not fit.
use vstd::prelude::*;
use crate::order::{Timestamp, PathSummary};
use crate::location::{Location, Port, Source, Target};
use crate::change_batch::{sum64, merged, consolidated, lemma_merged_consolidated};
use crate::frontier::{frontier_of, frontier_changes};
use crate::worklist::{descending, enqueued, gathered, lemma_enqueued_descending, lemma_gathered};
use crate::graph::{shaped, sized, is_port, edges_closed};

verus! {

/// The graph that a tracker follows.
pub struct Plan<T: Timestamp> {
    /// The summaries inside each node, by input port and output port.
    pub nodes: Seq<Seq<Seq<Seq<T::Summary>>>>,
    /// The edges from each output port of each node.
    pub edges: Seq<Seq<Seq<Target>>>,
    /// For each port, the summaries of the paths from it to each output of the
    /// scope.
    pub summaries: Map<Location, Seq<Seq<T::Summary>>>,
}

/// The state of a tracker that propagation changes.
pub struct Ledger<T: Timestamp> {
    /// For each port, the counts of the capabilities held there.
    pub pointstamps: Map<Location, Seq<(T, i64)>>,
    /// For each port, the counts of what the capabilities imply there.
    pub implications: Map<Location, Seq<(T, i64)>>,
    /// The pending changes to implications, the least last.
    pub worklist: Seq<(T, Location, i64)>,
    /// The changes to the frontiers of implications that were not yet taken.
    pub pushed: Seq<((Location, T), i64)>,
    /// For each output of the scope, the changes projected to it that were not
    /// yet taken.
    pub outputs: Seq<Seq<(T, i64)>>,
    /// The sum of the changes to the frontiers of the capabilities held.
    pub total: i64,
}

impl<T: Timestamp> Plan<T> {
    /// `loc` is a port of the graph.
    pub open spec fn has(self, loc: Location) -> bool {
        is_port(self.nodes, self.edges, loc)
    }

    /// The number of outputs of the scope: the input ports of node 0.
    pub open spec fn scope_outputs(self) -> int {
        self.nodes[0].len() as int
    }

    /// The graph is well shaped, its numbers of nodes and ports are numbers of
    /// the machine, it has node 0, and no port has summaries to more outputs
    /// than the scope has.
    pub open spec fn wf(self) -> bool {
        &&& shaped(self.nodes, self.edges)
        &&& sized(self.nodes, self.edges)
        &&& edges_closed(self.nodes, self.edges)
        &&& self.nodes.len() > 0
        &&& forall|loc: Location| self.has(loc) <==> #[trigger] self.summaries.dom().contains(loc)
        &&& forall|loc: Location|
            self.has(loc) ==> (#[trigger] self.summaries[loc]).len() <= self.scope_outputs()
    }

    /// Every pending change of `w` is at a port of the graph.
    pub open spec fn ports_only(self, w: Seq<(T, Location, i64)>) -> bool {
        forall|i: int| 0 <= i < w.len() ==> self.has((#[trigger] w[i]).1)
    }
}

impl<T: Timestamp> Ledger<T> {
    /// The state fits the plan: counts for exactly the ports, everything
    /// consolidated and in order.
    pub open spec fn wf(self, plan: Plan<T>) -> bool {
        &&& forall|loc: Location| plan.has(loc) <==> #[trigger] self.pointstamps.dom().contains(loc)
        &&& forall|loc: Location| plan.has(loc) <==> #[trigger] self.implications.dom().contains(loc)
        &&& forall|loc: Location| plan.has(loc) ==> consolidated(#[trigger] self.pointstamps[loc])
        &&& forall|loc: Location| plan.has(loc) ==> consolidated(#[trigger] self.implications[loc])
        &&& descending(self.worklist)
        &&& plan.ports_only(self.worklist)
        &&& consolidated(self.pushed)
        &&& self.outputs.len() == plan.scope_outputs()
        &&& forall|o: int| 0 <= o < self.outputs.len() ==> consolidated(#[trigger] self.outputs[o])
    }
}

/// The pending changes `w` and, for each summary from `row[j][k]` on that
/// applies to `time`, the change `diff` at what `time` becomes, pending at the
/// output port of `node` that the summary leads to.
pub open spec fn crossed<T: Timestamp>(
    w: Seq<(T, Location, i64)>,
    row: Seq<Seq<T::Summary>>,
    node: usize,
    j: int,
    k: int,
    time: T,
    diff: i64,
) -> Seq<(T, Location, i64)>
    decreases row.len() - j, (if 0 <= j < row.len() { row[j].len() - k } else { 0 }),
{
    if 0 <= j < row.len() {
        if 0 <= k < row[j].len() {
            let next = match row[j][k].apply(time) {
                Some(t) => enqueued(w, (t, Location { node, port: Port::Source(j as usize) }, diff)),
                None => w,
            };
            crossed(next, row, node, j, k + 1, time, diff)
        } else {
            crossed(w, row, node, j + 1, 0, time, diff)
        }
    } else {
        w
    }
}

/// The pending changes `w` and the change `diff` at `time`, pending at each of
/// `targets[k..]`.
pub open spec fn sent<T: Timestamp>(
    w: Seq<(T, Location, i64)>,
    targets: Seq<Target>,
    k: int,
    time: T,
    diff: i64,
) -> Seq<(T, Location, i64)>
    decreases targets.len() - k,
{
    if 0 <= k < targets.len() {
        sent(enqueued(w, (time, Location::of_target(targets[k]), diff)), targets, k + 1, time, diff)
    } else {
        w
    }
}

/// The changes `outs` and, for each summary from `summaries[o][k]` on that
/// applies to `time`, the change `diff` at what `time` becomes, for output `o`.
pub open spec fn projected<T: Timestamp>(
    outs: Seq<Seq<(T, i64)>>,
    summaries: Seq<Seq<T::Summary>>,
    o: int,
    k: int,
    time: T,
    diff: i64,
) -> Option<Seq<Seq<(T, i64)>>>
    decreases summaries.len() - o, (if 0 <= o < summaries.len() { summaries[o].len() - k } else { 0 }),
{
    if 0 <= o < summaries.len() {
        if 0 <= k < summaries[o].len() {
            match summaries[o][k].apply(time) {
                Some(t) => match merged(outs[o], t, diff) {
                    None => None,
                    Some(batch) => projected(outs.update(o, batch), summaries, o, k + 1, time, diff),
                },
                None => projected(outs, summaries, o, k + 1, time, diff),
            }
        } else {
            projected(outs, summaries, o + 1, 0, time, diff)
        }
    } else {
        Some(outs)
    }
}

/// The state after the changes `changes[c..]` to the frontier of the
/// capabilities held at `loc` were noted: each is added to the total, projected
/// to the outputs of the scope, and made pending at `loc`.
pub open spec fn noted<T: Timestamp>(
    plan: Plan<T>,
    s: Ledger<T>,
    loc: Location,
    changes: Seq<(T, i64)>,
    c: int,
) -> Option<Ledger<T>>
    decreases changes.len() - c,
{
    if 0 <= c < changes.len() {
        let time = changes[c].0;
        let diff = changes[c].1;
        match sum64(s.total, diff) {
            None => None,
            Some(total) => match projected(s.outputs, plan.summaries[loc], 0, 0, time, diff) {
                None => None,
                Some(outputs) => noted(
                    plan,
                    Ledger { total, outputs, worklist: enqueued(s.worklist, (time, loc, diff)), ..s },
                    loc,
                    changes,
                    c + 1,
                ),
            },
        }
    } else {
        Some(s)
    }
}

/// The state after one buffered change was taken up: `diff` is added to the
/// count of `time` among the capabilities held at `loc`, and the changes of
/// their frontier are noted.
pub open spec fn absorbed_one<T: Timestamp>(
    plan: Plan<T>,
    s: Ledger<T>,
    loc: Location,
    time: T,
    diff: i64,
) -> Option<Ledger<T>> {
    match merged(s.pointstamps[loc], time, diff) {
        None => None,
        Some(counts) => noted(
            plan,
            Ledger { pointstamps: s.pointstamps.insert(loc, counts), ..s },
            loc,
            frontier_changes(frontier_of(s.pointstamps[loc]), frontier_of(counts)),
            0,
        ),
    }
}

/// The state after the buffered changes `entries[e..]` at input ports were
/// taken up, in order.
pub open spec fn absorbed_targets<T: Timestamp>(
    plan: Plan<T>,
    s: Ledger<T>,
    entries: Seq<((Target, T), i64)>,
    e: int,
) -> Option<Ledger<T>>
    decreases entries.len() - e,
{
    if 0 <= e < entries.len() {
        match absorbed_one(
            plan,
            s,
            Location::of_target(entries[e].0.0),
            entries[e].0.1,
            entries[e].1,
        ) {
            None => None,
            Some(next) => absorbed_targets(plan, next, entries, e + 1),
        }
    } else {
        Some(s)
    }
}

/// The state after the buffered changes `entries[e..]` at output ports were
/// taken up, in order.
pub open spec fn absorbed_sources<T: Timestamp>(
    plan: Plan<T>,
    s: Ledger<T>,
    entries: Seq<((Source, T), i64)>,
    e: int,
) -> Option<Ledger<T>>
    decreases entries.len() - e,
{
    if 0 <= e < entries.len() {
        match absorbed_one(
            plan,
            s,
            Location::of_source(entries[e].0.0),
            entries[e].0.1,
            entries[e].1,
        ) {
            None => None,
            Some(next) => absorbed_sources(plan, next, entries, e + 1),
        }
    } else {
        Some(s)
    }
}

/// The state after the changes `changes[c..]` to the frontier of the
/// implications at `loc` were relayed: each is made pending downstream (across
/// the node from an input port, along the edges from an output port) and
/// recorded as pushed.
pub open spec fn relayed<T: Timestamp>(
    plan: Plan<T>,
    s: Ledger<T>,
    loc: Location,
    changes: Seq<(T, i64)>,
    c: int,
) -> Option<Ledger<T>>
    decreases changes.len() - c,
{
    if 0 <= c < changes.len() {
        let time = changes[c].0;
        let diff = changes[c].1;
        let worklist = match loc.port {
            Port::Target(i) => crossed(
                s.worklist,
                plan.nodes[loc.node as int][i as int],
                loc.node,
                0,
                0,
                time,
                diff,
            ),
            Port::Source(p) => sent(s.worklist, plan.edges[loc.node as int][p as int], 0, time, diff),
        };
        match merged(s.pushed, (loc, time), diff) {
            None => None,
            Some(pushed) => relayed(plan, Ledger { worklist, pushed, ..s }, loc, changes, c + 1),
        }
    } else {
        Some(s)
    }
}

/// The state after `diff` was added to the count of `time` among the
/// implications at `loc`, and the changes of their frontier were relayed.
pub open spec fn moved<T: Timestamp>(
    plan: Plan<T>,
    s: Ledger<T>,
    loc: Location,
    time: T,
    diff: i64,
) -> Option<Ledger<T>> {
    match merged(s.implications[loc], time, diff) {
        None => None,
        Some(counts) => relayed(
            plan,
            Ledger { implications: s.implications.insert(loc, counts), ..s },
            loc,
            frontier_changes(frontier_of(s.implications[loc]), frontier_of(counts)),
            0,
        ),
    }
}

/// One step of propagation: the least pending change is taken out together
/// with the other pending changes at its timestamp and location, and where
/// their sum is not zero it is applied to the implications there. With nothing
/// pending the state stays.
pub open spec fn step<T: Timestamp>(plan: Plan<T>, s: Ledger<T>) -> Option<Ledger<T>> {
    if s.worklist.len() == 0 {
        Some(s)
    } else {
        let least = s.worklist.last();
        match gathered(s.worklist.drop_last(), least.0, least.1, least.2) {
            None => None,
            Some((rest, diff)) => if diff == 0 {
                Some(Ledger { worklist: rest, ..s })
            } else {
                moved(plan, Ledger { worklist: rest, ..s }, least.1, least.0, diff)
            },
        }
    }
}

/// The state after `n` steps of propagation.
pub open spec fn run<T: Timestamp>(plan: Plan<T>, s: Ledger<T>, n: nat) -> Option<Ledger<T>>
    decreases n,
{
    if n == 0 {
        Some(s)
    } else {
        match run(plan, s, (n - 1) as nat) {
            None => None,
            Some(m) => step(plan, m),
        }
    }
}

/// After `n` steps from `s` nothing is pending.
pub open spec fn quiet_after<T: Timestamp>(plan: Plan<T>, s: Ledger<T>, n: nat) -> bool {
    run(plan, s, n) matches Some(m) && m.worklist.len() == 0
}

/// Propagation from `s` comes to an end: after some number of steps, in none
/// of which a count fails to fit, nothing is pending.
pub open spec fn settles<T: Timestamp>(plan: Plan<T>, s: Ledger<T>) -> bool {
    exists|n: nat| quiet_after(plan, s, n)
}

/// Propagation from `s` comes to an end within `steps` steps.
pub open spec fn settles_within<T: Timestamp>(plan: Plan<T>, s: Ledger<T>, steps: nat) -> bool {
    exists|n: nat| n <= steps && quiet_after(plan, s, n)
}

/// The state in which propagation from `s` ends.
pub open spec fn settled<T: Timestamp>(plan: Plan<T>, s: Ledger<T>) -> Ledger<T> {
    run(plan, s, choose|n: nat| quiet_after(plan, s, n)).unwrap()
}

/// The state after every buffered change was taken up, those at input ports
/// first.
pub open spec fn taken_up<T: Timestamp>(
    plan: Plan<T>,
    s: Ledger<T>,
    targets: Seq<((Target, T), i64)>,
    sources: Seq<((Source, T), i64)>,
) -> Option<Ledger<T>> {
    match absorbed_targets(plan, s, targets, 0) {
        None => None,
        Some(m) => absorbed_sources(plan, m, sources, 0),
    }
}

/// Entering a change at a port keeps the pending changes in order and at ports.
pub proof fn lemma_enqueued_fits<T: Timestamp>(
    plan: Plan<T>,
    w: Seq<(T, Location, i64)>,
    e: (T, Location, i64),
)
    requires
        descending(w),
        plan.ports_only(w),
        plan.has(e.1),
    ensures
        descending(enqueued(w, e)),
        plan.ports_only(enqueued(w, e)),
{
    lemma_enqueued_descending(w, e);
    let p = crate::worklist::berth(w, e, w.len() as int);
    crate::worklist::lemma_berth(w, e, w.len() as int);
    w.insert_ensures(p, e);
    let m = enqueued(w, e);
    assert forall|i: int| 0 <= i < m.len() implies plan.has((#[trigger] m[i]).1) by {
        if i < p {
            assert(m[i] == w[i]);
        } else if i > p {
            assert(m[i] == w[i - 1]);
        }
    }
}

/// Crossing a node keeps the pending changes in order and at ports.
pub proof fn lemma_crossed_fits<T: Timestamp>(
    plan: Plan<T>,
    w: Seq<(T, Location, i64)>,
    row: Seq<Seq<T::Summary>>,
    node: usize,
    j: int,
    k: int,
    time: T,
    diff: i64,
)
    requires
        descending(w),
        plan.ports_only(w),
        node < plan.nodes.len(),
        node < plan.edges.len(),
        row.len() == plan.edges[node as int].len(),
        0 <= j,
        0 <= k,
    ensures
        descending(crossed(w, row, node, j, k, time, diff)),
        plan.ports_only(crossed(w, row, node, j, k, time, diff)),
    decreases row.len() - j, (if 0 <= j < row.len() { row[j].len() - k } else { 0 }),
{
    if j < row.len() {
        if k < row[j].len() {
            match row[j][k].apply(time) {
                Some(t) => {
                    let e = (t, Location { node, port: Port::Source(j as usize) }, diff);
                    lemma_enqueued_fits(plan, w, e);
                    lemma_crossed_fits(plan, enqueued(w, e), row, node, j, k + 1, time, diff);
                },
                None => {
                    lemma_crossed_fits(plan, w, row, node, j, k + 1, time, diff);
                },
            }
        } else {
            lemma_crossed_fits(plan, w, row, node, j + 1, 0, time, diff);
        }
    }
}

/// Sending along edges keeps the pending changes in order and at ports.
pub proof fn lemma_sent_fits<T: Timestamp>(
    plan: Plan<T>,
    w: Seq<(T, Location, i64)>,
    targets: Seq<Target>,
    k: int,
    time: T,
    diff: i64,
)
    requires
        descending(w),
        plan.ports_only(w),
        forall|i: int| 0 <= i < targets.len() ==> plan.has(Location::of_target(#[trigger] targets[i])),
        0 <= k,
    ensures
        descending(sent(w, targets, k, time, diff)),
        plan.ports_only(sent(w, targets, k, time, diff)),
    decreases targets.len() - k,
{
    if k < targets.len() {
        let e = (time, Location::of_target(targets[k]), diff);
        lemma_enqueued_fits(plan, w, e);
        lemma_sent_fits(plan, enqueued(w, e), targets, k + 1, time, diff);
    }
}

/// Projecting keeps the number of outputs, and each consolidated.
pub proof fn lemma_projected_fits<T: Timestamp>(
    outs: Seq<Seq<(T, i64)>>,
    summaries: Seq<Seq<T::Summary>>,
    o: int,
    k: int,
    time: T,
    diff: i64,
)
    requires
        summaries.len() <= outs.len(),
        forall|i: int| 0 <= i < outs.len() ==> consolidated(#[trigger] outs[i]),
        projected(outs, summaries, o, k, time, diff) is Some,
        0 <= o,
        0 <= k,
    ensures
        projected(outs, summaries, o, k, time, diff).unwrap().len() == outs.len(),
        forall|i: int|
            0 <= i < outs.len() ==> consolidated(
                #[trigger] projected(outs, summaries, o, k, time, diff).unwrap()[i],
            ),
    decreases summaries.len() - o, (if 0 <= o < summaries.len() { summaries[o].len() - k } else { 0 }),
{
    if o < summaries.len() {
        if k < summaries[o].len() {
            match summaries[o][k].apply(time) {
                Some(t) => {
                    lemma_merged_consolidated(outs[o], t, diff);
                    let batch = merged(outs[o], t, diff).unwrap();
                    lemma_projected_fits(outs.update(o, batch), summaries, o, k + 1, time, diff);
                },
                None => {
                    lemma_projected_fits(outs, summaries, o, k + 1, time, diff);
                },
            }
        } else {
            lemma_projected_fits(outs, summaries, o + 1, 0, time, diff);
        }
    }
}

/// Noting changes keeps a state fit.
pub proof fn lemma_noted_fits<T: Timestamp>(
    plan: Plan<T>,
    s: Ledger<T>,
    loc: Location,
    changes: Seq<(T, i64)>,
    c: int,
)
    requires
        plan.wf(),
        s.wf(plan),
        plan.has(loc),
        noted(plan, s, loc, changes, c) is Some,
        0 <= c,
    ensures
        noted(plan, s, loc, changes, c).unwrap().wf(plan),
    decreases changes.len() - c,
{
    if c < changes.len() {
        let time = changes[c].0;
        let diff = changes[c].1;
        let total = sum64(s.total, diff).unwrap();
        lemma_projected_fits(s.outputs, plan.summaries[loc], 0, 0, time, diff);
        let outputs = projected(s.outputs, plan.summaries[loc], 0, 0, time, diff).unwrap();
        lemma_enqueued_fits(plan, s.worklist, (time, loc, diff));
        let next = Ledger {
            total,
            outputs,
            worklist: enqueued(s.worklist, (time, loc, diff)),
            ..s
        };
        lemma_noted_fits(plan, next, loc, changes, c + 1);
    }
}

/// Taking up a buffered change at a port keeps a state fit.
pub proof fn lemma_absorbed_one_fits<T: Timestamp>(
    plan: Plan<T>,
    s: Ledger<T>,
    loc: Location,
    time: T,
    diff: i64,
)
    requires
        plan.wf(),
        s.wf(plan),
        plan.has(loc),
        absorbed_one(plan, s, loc, time, diff) is Some,
    ensures
        absorbed_one(plan, s, loc, time, diff).unwrap().wf(plan),
{
    lemma_merged_consolidated(s.pointstamps[loc], time, diff);
    let counts = merged(s.pointstamps[loc], time, diff).unwrap();
    let next = Ledger { pointstamps: s.pointstamps.insert(loc, counts), ..s };
    assert(next.wf(plan));
    lemma_noted_fits(
        plan,
        next,
        loc,
        frontier_changes(frontier_of(s.pointstamps[loc]), frontier_of(counts)),
        0,
    );
}

/// Relaying changes keeps a state fit.
pub proof fn lemma_relayed_fits<T: Timestamp>(
    plan: Plan<T>,
    s: Ledger<T>,
    loc: Location,
    changes: Seq<(T, i64)>,
    c: int,
)
    requires
        plan.wf(),
        s.wf(plan),
        plan.has(loc),
        relayed(plan, s, loc, changes, c) is Some,
        0 <= c,
    ensures
        relayed(plan, s, loc, changes, c).unwrap().wf(plan),
    decreases changes.len() - c,
{
    if c < changes.len() {
        let time = changes[c].0;
        let diff = changes[c].1;
        let worklist = match loc.port {
            Port::Target(i) => crossed(
                s.worklist,
                plan.nodes[loc.node as int][i as int],
                loc.node,
                0,
                0,
                time,
                diff,
            ),
            Port::Source(p) => sent(s.worklist, plan.edges[loc.node as int][p as int], 0, time, diff),
        };
        match loc.port {
            Port::Target(i) => {
                lemma_crossed_fits(
                    plan,
                    s.worklist,
                    plan.nodes[loc.node as int][i as int],
                    loc.node,
                    0,
                    0,
                    time,
                    diff,
                );
            },
            Port::Source(p) => {
                let targets = plan.edges[loc.node as int][p as int];
                assert forall|i: int| 0 <= i < targets.len() implies plan.has(
                    Location::of_target(#[trigger] targets[i]),
                ) by {
                    assert(targets[i] == plan.edges[loc.node as int][p as int][i]);
                }
                lemma_sent_fits(plan, s.worklist, targets, 0, time, diff);
            },
        }
        lemma_merged_consolidated(s.pushed, (loc, time), diff);
        let pushed = merged(s.pushed, (loc, time), diff).unwrap();
        lemma_relayed_fits(plan, Ledger { worklist, pushed, ..s }, loc, changes, c + 1);
    }
}

/// Applying a change to implications keeps a state fit.
pub proof fn lemma_moved_fits<T: Timestamp>(
    plan: Plan<T>,
    s: Ledger<T>,
    loc: Location,
    time: T,
    diff: i64,
)
    requires
        plan.wf(),
        s.wf(plan),
        plan.has(loc),
        moved(plan, s, loc, time, diff) is Some,
    ensures
        moved(plan, s, loc, time, diff).unwrap().wf(plan),
{
    lemma_merged_consolidated(s.implications[loc], time, diff);
    let counts = merged(s.implications[loc], time, diff).unwrap();
    let next = Ledger { implications: s.implications.insert(loc, counts), ..s };
    assert(next.wf(plan));
    lemma_relayed_fits(
        plan,
        next,
        loc,
        frontier_changes(frontier_of(s.implications[loc]), frontier_of(counts)),
        0,
    );
}

/// A step keeps a state fit.
pub proof fn lemma_step_fits<T: Timestamp>(plan: Plan<T>, s: Ledger<T>)
    requires
        plan.wf(),
        s.wf(plan),
        step(plan, s) is Some,
    ensures
        step(plan, s).unwrap().wf(plan),
{
    if s.worklist.len() > 0 {
        let least = s.worklist.last();
        lemma_gathered(s.worklist.drop_last(), least.0, least.1, least.2);
        let (rest, diff) = gathered(s.worklist.drop_last(), least.0, least.1, least.2).unwrap();
        let next = Ledger { worklist: rest, ..s };
        assert forall|i: int| 0 <= i < rest.len() implies rest[i] == s.worklist[i] by {
            assert(rest[i] == s.worklist.drop_last().take(rest.len() as int)[i]);
        }
        assert(next.wf(plan));
        if diff != 0 {
            lemma_moved_fits(plan, next, least.1, least.0, diff);
        }
    }
}

/// Steps keep a state fit, and a run that is defined is defined all along.
pub proof fn lemma_run_fits<T: Timestamp>(plan: Plan<T>, s: Ledger<T>, n: nat, m: nat)
    requires
        plan.wf(),
        s.wf(plan),
        run(plan, s, n) is Some,
        m <= n,
    ensures
        run(plan, s, m) is Some,
        run(plan, s, m).unwrap().wf(plan),
    decreases n,
{
    if n > 0 {
        if m == n {
            lemma_run_fits(plan, s, (n - 1) as nat, (n - 1) as nat);
            lemma_step_fits(plan, run(plan, s, (n - 1) as nat).unwrap());
        } else {
            lemma_run_fits(plan, s, (n - 1) as nat, m);
        }
    }
}

/// Once nothing is pending, further steps change nothing.
pub proof fn lemma_run_stays<T: Timestamp>(plan: Plan<T>, s: Ledger<T>, i: nat, n: nat)
    requires
        quiet_after(plan, s, i),
        i <= n,
    ensures
        run(plan, s, n) == run(plan, s, i),
    decreases n,
{
    if n > i {
        lemma_run_stays(plan, s, i, (n - 1) as nat);
    }
}

/// Taking up buffered changes at ports keeps a state fit.
pub proof fn lemma_taken_up_fits<T: Timestamp>(
    plan: Plan<T>,
    s: Ledger<T>,
    targets: Seq<((Target, T), i64)>,
    sources: Seq<((Source, T), i64)>,
)
    requires
        plan.wf(),
        s.wf(plan),
        forall|i: int| 0 <= i < targets.len() ==> plan.has(Location::of_target((#[trigger] targets[i]).0.0)),
        forall|i: int| 0 <= i < sources.len() ==> plan.has(Location::of_source((#[trigger] sources[i]).0.0)),
        taken_up(plan, s, targets, sources) is Some,
    ensures
        taken_up(plan, s, targets, sources).unwrap().wf(plan),
{
    lemma_absorbed_targets_fits(plan, s, targets, 0);
    lemma_absorbed_sources_fits(plan, absorbed_targets(plan, s, targets, 0).unwrap(), sources, 0);
}

/// Taking up buffered changes at input ports keeps a state fit.
pub proof fn lemma_absorbed_targets_fits<T: Timestamp>(
    plan: Plan<T>,
    s: Ledger<T>,
    entries: Seq<((Target, T), i64)>,
    e: int,
)
    requires
        plan.wf(),
        s.wf(plan),
        forall|i: int| 0 <= i < entries.len() ==> plan.has(Location::of_target((#[trigger] entries[i]).0.0)),
        absorbed_targets(plan, s, entries, e) is Some,
        0 <= e,
    ensures
        absorbed_targets(plan, s, entries, e).unwrap().wf(plan),
    decreases entries.len() - e,
{
    if e < entries.len() {
        let loc = Location::of_target(entries[e].0.0);
        lemma_absorbed_one_fits(plan, s, loc, entries[e].0.1, entries[e].1);
        lemma_absorbed_targets_fits(
            plan,
            absorbed_one(plan, s, loc, entries[e].0.1, entries[e].1).unwrap(),
            entries,
            e + 1,
        );
    }
}

/// Taking up buffered changes at output ports keeps a state fit.
pub proof fn lemma_absorbed_sources_fits<T: Timestamp>(
    plan: Plan<T>,
    s: Ledger<T>,
    entries: Seq<((Source, T), i64)>,
    e: int,
)
    requires
        plan.wf(),
        s.wf(plan),
        forall|i: int| 0 <= i < entries.len() ==> plan.has(Location::of_source((#[trigger] entries[i]).0.0)),
        absorbed_sources(plan, s, entries, e) is Some,
        0 <= e,
    ensures
        absorbed_sources(plan, s, entries, e).unwrap().wf(plan),
    decreases entries.len() - e,
{
    if e < entries.len() {
        let loc = Location::of_source(entries[e].0.0);
        lemma_absorbed_one_fits(plan, s, loc, entries[e].0.1, entries[e].1);
        lemma_absorbed_sources_fits(
            plan,
            absorbed_one(plan, s, loc, entries[e].0.1, entries[e].1).unwrap(),
            entries,
            e + 1,
        );
    }
}

/// Where a step fails or something is still pending, no run up to there has
/// come to an end.
pub proof fn lemma_not_yet<T: Timestamp>(plan: Plan<T>, s: Ledger<T>, done: nat, n: nat)
    requires
        forall|i: nat| i < done ==> !quiet_after(plan, s, i),
        !quiet_after(plan, s, done),
        run(plan, s, done) is None || n <= done,
    ensures
        !quiet_after(plan, s, n),
    decreases n,
{
    if n > done {
        lemma_not_yet(plan, s, done, (n - 1) as nat);
        lemma_run_none(plan, s, done, n);
    }
}

/// A run that fails stays failed.
pub proof fn lemma_run_none<T: Timestamp>(plan: Plan<T>, s: Ledger<T>, done: nat, n: nat)
    requires
        run(plan, s, done) is None,
        done <= n,
    ensures
        run(plan, s, n) is None,
    decreases n,
{
    if n > done {
        lemma_run_none(plan, s, done, (n - 1) as nat);
    }
}

} // verus!
