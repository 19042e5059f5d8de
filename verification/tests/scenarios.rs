use reachability::antichain::Antichain;
use reachability::builder::Builder;
use reachability::location::{Location, Source, Target};
use reachability::tracker::Tracker;

fn three_node_loop(last: usize) -> Builder<usize> {
    let mut builder = Builder::<usize>::new();
    builder.add_node(0, 1, 1, vec![vec![Antichain::from_elem(0)]]);
    builder.add_node(1, 1, 1, vec![vec![Antichain::from_elem(0)]]);
    builder.add_node(2, 1, 1, vec![vec![Antichain::from_elem(last)]]);
    builder.add_edge(Source::new(0, 0), Target::new(1, 0));
    builder.add_edge(Source::new(1, 0), Target::new(2, 0));
    builder.add_edge(Source::new(2, 0), Target::new(0, 0));
    builder
}

fn pushed_at_targets(tracker: &mut Tracker<usize>) -> Vec<((Location, usize), i64)> {
    let mut results: Vec<((Location, usize), i64)> = tracker
        .pushed()
        .drain()
        .into_iter()
        .filter(|((location, _), _)| location.is_target())
        .collect();
    results.sort();
    results
}

#[test]
fn cycle_with_one_incrementing_hop() {
    let builder = three_node_loop(1);
    let (mut tracker, _) = builder.build();

    tracker.update_source(Source::new(0, 0), 17, 1);
    tracker.propagate_all();
    let results = pushed_at_targets(&mut tracker);
    assert_eq!(results.len(), 3);
    assert_eq!(results[0], ((Location::new_target(0, 0), 18), 1));
    assert_eq!(results[1], ((Location::new_target(1, 0), 17), 1));
    assert_eq!(results[2], ((Location::new_target(2, 0), 17), 1));

    tracker.update_source(Source::new(0, 0), 17, -1);
    tracker.propagate_all();
    let results = pushed_at_targets(&mut tracker);
    assert_eq!(results.len(), 3);
    assert_eq!(results[0], ((Location::new_target(0, 0), 18), -1));
    assert_eq!(results[1], ((Location::new_target(1, 0), 17), -1));
    assert_eq!(results[2], ((Location::new_target(2, 0), 17), -1));

    assert!(!tracker.tracking_anything());
    for node in 0..3 {
        let state = tracker.node_state(node);
        assert!(state.targets[0].pointstamps.frontier().is_empty());
        assert!(state.targets[0].implications.frontier().is_empty());
        assert!(state.sources[0].pointstamps.frontier().is_empty());
        assert!(state.sources[0].implications.frontier().is_empty());
    }
}

#[test]
fn cycle_reports_every_port_once() {
    let builder = three_node_loop(1);
    let (mut tracker, _) = builder.build();
    tracker.update_source(Source::new(1, 0), 5, 1);
    tracker.propagate_all();
    let pushed = tracker.pushed().drain();
    assert_eq!(
        pushed,
        vec![
            ((Location::new_target(0, 0), 6), 1),
            ((Location::new_source(0, 0), 6), 1),
            ((Location::new_target(1, 0), 6), 1),
            ((Location::new_source(1, 0), 5), 1),
            ((Location::new_target(2, 0), 5), 1),
            ((Location::new_source(2, 0), 6), 1),
        ]
    );
    assert!(tracker.pushed().is_empty());
}

#[test]
fn swap_only_node_is_acyclic() {
    let mut builder = Builder::<usize>::new();
    builder.add_node(
        0,
        2,
        2,
        vec![
            vec![Antichain::from_elem(0), Antichain::new()],
            vec![Antichain::new(), Antichain::from_elem(1)],
        ],
    );
    builder.add_edge(Source::new(0, 0), Target::new(0, 1));
    builder.add_edge(Source::new(0, 1), Target::new(0, 0));
    assert!(builder.is_acyclic());
}

#[test]
fn default_cycle_is_cyclic() {
    let builder = three_node_loop(0);
    assert!(!builder.is_acyclic());
}

#[test]
fn incrementing_cycle_is_acyclic() {
    let builder = three_node_loop(1);
    assert!(builder.is_acyclic());
}

#[test]
fn chain_is_acyclic_until_closed() {
    let mut builder = Builder::<usize>::new();
    builder.add_node(0, 1, 1, vec![vec![Antichain::from_elem(0)]]);
    builder.add_node(1, 1, 1, vec![vec![Antichain::from_elem(0)]]);
    builder.add_node(2, 1, 1, vec![vec![Antichain::from_elem(0)]]);
    builder.add_edge(Source::new(0, 0), Target::new(1, 0));
    builder.add_edge(Source::new(1, 0), Target::new(2, 0));
    assert!(builder.is_acyclic());
    builder.add_edge(Source::new(2, 0), Target::new(0, 0));
    assert!(!builder.is_acyclic());
}

#[test]
fn empty_graph_is_acyclic() {
    let builder = Builder::<usize>::new();
    assert!(builder.is_acyclic());
}

#[test]
fn two_default_summaries_count_twice() {
    // The same summary twice between one pair of ports: both count, and both
    // are taken out when the input port is removed.
    let mut builder = Builder::<(usize, usize)>::new();
    let mut both = Antichain::from_elem((0, 0));
    assert!(!both.insert((0, 0)));
    builder.add_node(0, 1, 1, vec![vec![both]]);
    assert!(builder.is_acyclic());
    builder.add_edge(Source::new(0, 0), Target::new(0, 0));
    assert!(!builder.is_acyclic());
}

#[test]
fn double_propagate_is_idempotent() {
    let builder = three_node_loop(1);
    let (mut once, _) = builder.build();
    let (mut twice, _) = builder.build();
    for tracker in [&mut once, &mut twice] {
        tracker.update_source(Source::new(0, 0), 17, 1);
        tracker.update_target(Target::new(2, 0), 3, 2);
        tracker.update(Location::new_source(1, 0), 9, 1);
    }
    once.propagate_all();
    twice.propagate_all();
    twice.propagate_all();
    let first = once.pushed().drain();
    let second = twice.pushed().drain();
    assert!(!first.is_empty());
    assert_eq!(first, second);
    assert_eq!(once.pushed_output()[0].drain(), twice.pushed_output()[0].drain());
}

#[test]
fn single_node_without_edges() {
    let mut builder = Builder::<usize>::new();
    builder.add_node(0, 1, 1, vec![vec![Antichain::from_elem(0)]]);
    let (mut tracker, summary) = builder.build();
    assert_eq!(summary.len(), 1);
    assert!(summary[0].is_empty());

    tracker.update_target(Target::new(0, 0), 5, 1);
    assert!(tracker.tracking_anything());
    tracker.propagate_all();
    let pushed = tracker.pushed().drain();
    assert!(pushed.contains(&((Location::new_target(0, 0), 5), 1)));
    assert!(pushed.contains(&((Location::new_source(0, 0), 5), 1)));
    assert_eq!(pushed.len(), 2);
    assert!(tracker.tracking_anything());
}
