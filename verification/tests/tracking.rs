use reachability::antichain::Antichain;
use reachability::builder::Builder;
use reachability::location::{Location, Source, Target};
use reachability::tracker::{PerOperator, PortInformation, Tracker};

fn ring(last: usize) -> Builder<usize> {
    let mut builder = Builder::<usize>::new();
    builder.add_node(0, 1, 1, vec![vec![Antichain::from_elem(0)]]);
    builder.add_node(1, 1, 1, vec![vec![Antichain::from_elem(0)]]);
    builder.add_node(2, 1, 1, vec![vec![Antichain::from_elem(last)]]);
    builder.add_edge(Source::new(0, 0), Target::new(1, 0));
    builder.add_edge(Source::new(1, 0), Target::new(2, 0));
    builder.add_edge(Source::new(2, 0), Target::new(0, 0));
    builder
}

#[test]
fn builder_grows_to_the_node_added() {
    let mut builder = Builder::<usize>::new();
    builder.add_node(2, 1, 2, vec![vec![Antichain::from_elem(0), Antichain::new()]]);
    assert_eq!(builder.nodes.len(), 3);
    assert_eq!(builder.edges.len(), 3);
    assert_eq!(builder.shape, vec![(0, 0), (0, 0), (1, 2)]);
    assert!(builder.nodes[0].is_empty());
    assert_eq!(builder.edges[2].len(), 2);
    assert_eq!(builder.nodes[2][0][0].elements(), &vec![0]);
    assert!(builder.nodes[2][0][1].elements().is_empty());
}

#[test]
fn builder_keeps_edges_while_outputs_stay() {
    let mut builder = Builder::<usize>::new();
    builder.add_node(0, 1, 2, vec![vec![Antichain::from_elem(0), Antichain::from_elem(1)]]);
    builder.add_edge(Source::new(0, 1), Target::new(0, 0));
    builder.add_edge(Source::new(0, 1), Target::new(0, 0));
    assert_eq!(builder.edges[0][1], vec![Target::new(0, 0), Target::new(0, 0)]);
    assert!(builder.edges[0][0].is_empty());

    builder.add_node(0, 1, 2, vec![vec![Antichain::from_elem(3), Antichain::new()]]);
    assert_eq!(builder.edges[0][1].len(), 2);
    assert_eq!(builder.nodes[0][0][0].elements(), &vec![3]);

    builder.add_node(0, 1, 1, vec![vec![Antichain::from_elem(0)]]);
    assert_eq!(builder.edges[0].len(), 1);
    assert!(builder.edges[0][0].is_empty());
    assert_eq!(builder.shape[0], (1, 1));
}

#[test]
fn summaries_to_the_scope_output() {
    let builder = ring(1);
    let (tracker, summary) = Tracker::allocate_from(&builder);
    assert_eq!(summary.len(), 1);
    assert_eq!(summary[0].len(), 1);
    assert_eq!(summary[0][0].elements(), &vec![1]);

    let zero = tracker.node_state(0);
    assert!(zero.targets[0].output_summaries.is_empty());
    assert!(zero.sources[0].output_summaries.is_empty());
    let one = tracker.node_state(1);
    assert_eq!(one.targets[0].output_summaries[0].elements(), &vec![1]);
    assert_eq!(one.sources[0].output_summaries[0].elements(), &vec![1]);
    let two = tracker.node_state(2);
    assert_eq!(two.targets[0].output_summaries[0].elements(), &vec![1]);
    assert_eq!(two.sources[0].output_summaries[0].elements(), &vec![0]);
}

#[test]
fn summaries_keep_the_least_path() {
    // Two ways from the scope input to the scope output: through node 1,
    // which adds 5, and through node 2, which adds 2.
    let mut builder = Builder::<usize>::new();
    builder.add_node(0, 1, 1, vec![vec![Antichain::new()]]);
    builder.add_node(1, 1, 1, vec![vec![Antichain::from_elem(5)]]);
    builder.add_node(2, 1, 1, vec![vec![Antichain::from_elem(2)]]);
    builder.add_node(3, 2, 1, vec![vec![Antichain::from_elem(0)], vec![Antichain::from_elem(0)]]);
    builder.add_edge(Source::new(0, 0), Target::new(1, 0));
    builder.add_edge(Source::new(0, 0), Target::new(2, 0));
    builder.add_edge(Source::new(1, 0), Target::new(3, 0));
    builder.add_edge(Source::new(2, 0), Target::new(3, 1));
    builder.add_edge(Source::new(3, 0), Target::new(0, 0));
    assert!(builder.is_acyclic());
    let (tracker, summary) = builder.build();
    assert_eq!(summary.len(), 1);
    assert_eq!(summary[0][0].elements(), &vec![2]);
    assert_eq!(tracker.node_state(1).targets[0].output_summaries[0].elements(), &vec![5]);
    assert_eq!(tracker.node_state(2).targets[0].output_summaries[0].elements(), &vec![2]);
    assert_eq!(tracker.node_state(3).targets[1].output_summaries[0].elements(), &vec![0]);
}

#[test]
fn capabilities_are_projected_to_the_scope_output() {
    let builder = ring(1);
    let (mut tracker, _) = builder.build();
    tracker.update_source(Source::new(1, 0), 5, 1);
    tracker.update_target(Target::new(2, 0), 8, 1);
    tracker.update_source(Source::new(2, 0), 8, 1);
    tracker.update_source(Source::new(0, 0), 1, 1);
    tracker.propagate_all();
    assert_eq!(tracker.pushed_output().len(), 1);
    assert_eq!(tracker.pushed_output()[0].drain(), vec![(6, 1), (8, 1), (9, 1)]);
    tracker.update_source(Source::new(1, 0), 5, -1);
    tracker.update_source(Source::new(1, 0), 6, 1);
    tracker.propagate_all();
    assert_eq!(tracker.pushed_output()[0].drain(), vec![(6, -1), (7, 1)]);
}

#[test]
fn buffered_changes_cancel_before_propagation() {
    let builder = ring(1);
    let (mut tracker, _) = builder.build();
    assert!(!tracker.tracking_anything());
    tracker.update_source(Source::new(0, 0), 17, 1);
    assert!(tracker.tracking_anything());
    tracker.update(Location::new_source(0, 0), 17, -1);
    assert!(!tracker.tracking_anything());
    tracker.propagate_all();
    assert!(tracker.pushed().is_empty());
    assert!(!tracker.tracking_anything());
}

#[test]
fn is_global_needs_a_single_witness() {
    let builder = ring(1);
    let (mut tracker, _) = builder.build();
    tracker.update_source(Source::new(0, 0), 17, 1);
    tracker.propagate_all();
    let at = Location::new_target(1, 0);
    assert!(tracker.is_global(at, &17));
    assert!(!tracker.is_global(at, &18));
    // A time that is not counted witnesses nothing.
    assert!(!tracker.is_global(at, &16));
    assert!(tracker.node_state(1).targets[0].is_global(&17));

    // A capability held at the port itself is a second witness.
    tracker.update_target(Target::new(1, 0), 17, 1);
    tracker.propagate_all();
    assert_eq!(tracker.node_state(1).targets[0].implications.count_for(&17), 2);
    assert!(!tracker.is_global(at, &17));
    assert!(tracker.is_global(Location::new_source(0, 0), &17));

    tracker.update_source(Source::new(0, 0), 17, -1);
    tracker.propagate_all();
    assert!(tracker.is_global(at, &17));
}

#[test]
fn round_trip_restores_the_empty_state() {
    let builder = ring(1);
    let (mut tracker, _) = builder.build();
    let updates: Vec<(Location, usize, i64)> = vec![
        (Location::new_source(0, 0), 17, 1),
        (Location::new_target(2, 0), 3, 2),
        (Location::new_source(1, 0), 9, 1),
        (Location::new_target(1, 0), 3, 1),
    ];
    let mut pushed: Vec<((Location, usize), i64)> = Vec::new();
    for (location, time, diff) in updates.iter() {
        tracker.update(*location, *time, *diff);
        tracker.propagate_all();
        pushed.extend(tracker.pushed().drain());
    }
    assert!(tracker.tracking_anything());
    for (location, time, diff) in updates.iter() {
        tracker.update(*location, *time, -*diff);
    }
    tracker.propagate_all();
    pushed.extend(tracker.pushed().drain());

    assert!(!tracker.tracking_anything());
    for node in 0..3 {
        let state = tracker.node_state(node);
        for port in state.targets.iter().chain(state.sources.iter()) {
            assert!(port.pointstamps.frontier().is_empty());
            assert!(port.implications.frontier().is_empty());
            for time in 0..30usize {
                assert_eq!(port.pointstamps.count_for(&time), 0);
                assert_eq!(port.implications.count_for(&time), 0);
            }
        }
    }
    // What was pushed over the whole history adds up to nothing.
    pushed.sort();
    let mut net: Vec<((Location, usize), i64)> = Vec::new();
    for (key, diff) in pushed {
        match net.last_mut() {
            Some(last) if last.0 == key => last.1 += diff,
            _ => net.push((key, diff)),
        }
    }
    assert!(net.iter().all(|(_, diff)| *diff == 0));
}

#[test]
fn order_of_updates_does_not_matter() {
    let builder = ring(1);
    let (mut forward, _) = builder.build();
    let (mut backward, _) = builder.build();
    let updates: Vec<(Location, usize, i64)> = vec![
        (Location::new_source(0, 0), 17, 1),
        (Location::new_target(2, 0), 3, 2),
        (Location::new_source(1, 0), 9, 1),
        (Location::new_source(0, 0), 17, -1),
        (Location::new_target(2, 0), 1, 1),
        (Location::new_source(0, 0), 4, 1),
    ];
    for (location, time, diff) in updates.iter() {
        forward.update(*location, *time, *diff);
    }
    for (location, time, diff) in updates.iter().rev() {
        backward.update(*location, *time, *diff);
    }
    forward.propagate_all();
    backward.propagate_all();
    let pushed = forward.pushed().drain();
    assert!(!pushed.is_empty());
    assert_eq!(pushed, backward.pushed().drain());
    assert_eq!(forward.pushed_output()[0].drain(), backward.pushed_output()[0].drain());
}

#[test]
fn pairs_of_times_are_tracked() {
    let mut builder = Builder::<(usize, usize)>::new();
    builder.add_node(0, 1, 1, vec![vec![Antichain::new()]]);
    let mut either = Antichain::from_elem((1, 0));
    assert!(either.insert((0, 1)));
    builder.add_node(1, 1, 1, vec![vec![either]]);
    builder.add_edge(Source::new(0, 0), Target::new(1, 0));
    builder.add_edge(Source::new(1, 0), Target::new(0, 0));
    assert!(builder.is_acyclic());
    let (mut tracker, summary) = builder.build();
    assert_eq!(summary[0][0].elements(), &vec![(1, 0), (0, 1)]);

    tracker.update_source(Source::new(0, 0), (3, 3), 1);
    tracker.propagate_all();
    assert_eq!(
        tracker.pushed().drain(),
        vec![
            ((Location::new_target(0, 0), (3, 4)), 1),
            ((Location::new_target(0, 0), (4, 3)), 1),
            ((Location::new_source(0, 0), (3, 3)), 1),
            ((Location::new_target(1, 0), (3, 3)), 1),
            ((Location::new_source(1, 0), (3, 4)), 1),
            ((Location::new_source(1, 0), (4, 3)), 1),
        ]
    );
    assert!(tracker.is_global(Location::new_source(1, 0), &(3, 4)));
    assert!(!tracker.is_global(Location::new_source(1, 0), &(4, 4)));
}

#[test]
fn fresh_ports_hold_nothing() {
    let port = PortInformation::<usize>::new();
    assert!(port.pointstamps.frontier().is_empty());
    assert!(port.implications.frontier().is_empty());
    assert!(port.output_summaries.is_empty());
    assert!(!port.is_global(&0));

    let operator = PerOperator::<usize>::new(2, 3);
    assert_eq!(operator.targets.len(), 2);
    assert_eq!(operator.sources.len(), 3);
    assert!(operator.sources[2].pointstamps.frontier().is_empty());
}

#[test]
fn propagation_is_tried_before_it_is_done() {
    let builder = ring(1);
    let (mut tracker, _) = builder.build();
    tracker.update_source(Source::new(1, 0), 5, 1);
    // Seven changes are taken out on the way round the ring.
    assert!(!tracker.propagation_fits(6));
    assert!(!tracker.try_propagate_all(6));
    assert!(tracker.pushed().is_empty());
    assert!(tracker.tracking_anything());
    assert!(tracker.node_state(1).sources[0].pointstamps.frontier().is_empty());
    assert!(tracker.propagation_fits(7));
    assert!(tracker.try_propagate_all(7));
    assert_eq!(tracker.pushed().drain().len(), 6);
    assert_eq!(tracker.node_state(1).sources[0].pointstamps.frontier(), &vec![5]);
    assert!(tracker.try_propagate_all(0));
}

#[test]
fn a_default_cycle_still_settles() {
    let builder = ring(0);
    assert!(!builder.is_acyclic());
    let (mut tracker, _) = builder.build();
    tracker.update_source(Source::new(0, 0), 2, 1);
    assert!(tracker.try_propagate_all(100));
    let copy = tracker.duplicate();
    // What goes round comes back as a second witness.
    assert_eq!(copy.node_state(0).sources[0].implications.count_for(&2), 2);
    assert!(!copy.is_global(Location::new_source(0, 0), &2));
    assert!(copy.is_global(Location::new_target(1, 0), &2));
}

#[test]
fn changes_that_do_not_fit_are_told() {
    let builder = ring(1);
    let (mut tracker, _) = builder.build();
    let at = Location::new_target(2, 0);
    assert!(tracker.update_fits(at, &3, i64::MAX));
    tracker.update(at, 3, i64::MAX);
    assert!(!tracker.update_fits(at, &3, 1));
    assert!(tracker.update_fits(at, &4, 1));
    assert!(tracker.update_fits(Location::new_source(2, 0), &3, 1));
    assert!(tracker.try_propagate_all(100));
    tracker.update(at, 3, 1);
    // The count of the capabilities held at the port would pass the greatest
    // count.
    assert!(!tracker.propagation_fits(100));
    assert!(!tracker.try_propagate_all(100));
    assert_eq!(tracker.node_state(2).targets[0].pointstamps.count_for(&3), i64::MAX);
}

#[test]
fn builder_tells_whether_it_is_consistent() {
    let mut builder = ring(1);
    assert!(builder.is_consistent());
    let copy = builder.duplicate();
    assert!(copy.is_consistent());
    assert_eq!(copy.shape, builder.shape);
    assert_eq!(copy.edges, builder.edges);
    assert_eq!(copy.nodes[2][0][0].elements(), &vec![1]);

    // An edge to an input port that node 1 lacks.
    builder.edges[0][0].push(Target::new(1, 1));
    assert!(!builder.is_consistent());
    assert!(copy.is_consistent());
    builder.edges[0][0].pop();
    assert!(builder.is_consistent());
    // An edge to a node that is not there.
    builder.edges[2][0].push(Target::new(3, 0));
    assert!(!builder.is_consistent());
    builder.edges[2][0].pop();
    // A row with a summary too many.
    builder.nodes[1][0].push(Antichain::new());
    assert!(!builder.is_consistent());
    builder.nodes[1][0].pop();
    // A shape that says otherwise.
    builder.shape[1] = (1, 2);
    assert!(!builder.is_consistent());
    builder.shape[1] = (1, 1);
    assert!(builder.is_consistent());
    builder.shape.pop();
    assert!(!builder.is_consistent());
    assert!(Builder::<usize>::new().is_consistent());
}

#[test]
fn changes_away_from_the_ports_are_buffered_and_not_taken_up() {
    let builder = ring(1);
    let (mut tracker, _) = builder.build();
    assert!(tracker.has_port(Location::new_target(2, 0)));
    assert!(!tracker.has_port(Location::new_target(2, 1)));
    assert!(!tracker.has_port(Location::new_source(3, 0)));
    assert!(tracker.buffers_at_ports());

    tracker.update_target(Target::new(2, 1), 4, 1);
    assert!(tracker.tracking_anything());
    assert!(!tracker.buffers_at_ports());
    assert!(!tracker.propagation_fits(100));
    assert!(!tracker.try_propagate_all(100));
    assert!(tracker.tracking_anything());

    tracker.update_target(Target::new(2, 1), 4, -1);
    assert!(tracker.buffers_at_ports());
    tracker.update_source(Source::new(7, 0), 4, 1);
    assert!(!tracker.buffers_at_ports());
    tracker.update(Location::new_source(7, 0), 4, -1);
    assert!(tracker.try_propagate_all(100));
    assert!(!tracker.tracking_anything());
}

#[test]
fn a_time_of_the_frontier_is_global_with_a_single_count() {
    let builder = ring(1);
    let (mut tracker, _) = builder.build();
    let at = Location::new_source(1, 0);
    assert!(!tracker.is_global(at, &5));
    tracker.update_source(Source::new(1, 0), 5, 1);
    tracker.propagate_all();
    assert!(tracker.is_global(at, &5));
    // What comes round the ring at 6 is counted once, behind the frontier.
    assert_eq!(tracker.node_state(1).sources[0].implications.count_for(&6), 1);
    assert!(!tracker.is_global(at, &6));
    assert!(!tracker.is_global(at, &4));
    assert!(!tracker.is_global(at, &7));
}
