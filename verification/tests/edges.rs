use reachability::antichain::Antichain;
use reachability::builder::Builder;
use reachability::location::{Location, Source, Target};

fn line(middle: usize) -> Builder<usize> {
    // The scope input feeds node 1, which feeds the scope output.
    let mut builder = Builder::<usize>::new();
    builder.add_node(0, 1, 1, vec![vec![Antichain::new()]]);
    builder.add_node(1, 1, 1, vec![vec![Antichain::from_elem(middle)]]);
    builder.add_edge(Source::new(0, 0), Target::new(1, 0));
    builder.add_edge(Source::new(1, 0), Target::new(0, 0));
    builder
}

#[test]
fn summary_that_does_not_apply_drops_the_branch() {
    let builder = line(1);
    let (mut tracker, summary) = builder.build();
    assert_eq!(summary[0][0].elements(), &vec![1]);

    tracker.update_target(Target::new(1, 0), usize::MAX, 1);
    tracker.propagate_all();
    assert_eq!(
        tracker.pushed().drain(),
        vec![((Location::new_target(1, 0), usize::MAX), 1)]
    );
    assert!(tracker.pushed_output()[0].is_empty());
    assert!(tracker.node_state(1).sources[0].implications.frontier().is_empty());
}

#[test]
fn port_without_a_feeder_has_no_summaries() {
    let mut builder = line(0);
    builder.add_node(2, 1, 1, vec![vec![Antichain::from_elem(0)]]);
    builder.add_edge(Source::new(2, 0), Target::new(1, 0));
    let (tracker, _) = builder.build();
    // Nothing leads to the input of node 2, and the walk backwards from the
    // scope output reaches the input of node 1 along the last edge into it.
    assert_eq!(tracker.node_state(2).sources[0].output_summaries[0].elements(), &vec![0]);
    assert_eq!(tracker.node_state(2).targets[0].output_summaries[0].elements(), &vec![0]);
    assert!(tracker.node_state(0).sources[0].output_summaries.is_empty());
}

#[test]
fn last_edge_into_a_port_is_the_one_walked_back() {
    let mut builder = line(0);
    builder.add_node(2, 1, 1, vec![vec![Antichain::from_elem(4)]]);
    builder.add_edge(Source::new(0, 0), Target::new(2, 0));
    builder.add_edge(Source::new(2, 0), Target::new(1, 0));
    let (_, summary) = builder.build();
    // The edge from node 2 is the last into the input of node 1.
    assert_eq!(summary[0][0].elements(), &vec![4]);

    let mut other = line(0);
    other.add_node(2, 1, 1, vec![vec![Antichain::from_elem(4)]]);
    other.add_edge(Source::new(2, 0), Target::new(1, 0));
    other.add_edge(Source::new(0, 0), Target::new(2, 0));
    other.edges[0][0].swap(0, 1);
    let (tracker, summary) = other.build();
    assert_eq!(summary[0][0].elements(), &vec![4]);
    assert_eq!(tracker.node_state(2).sources[0].output_summaries[0].elements(), &vec![0]);
}

#[test]
fn nothing_tracked_means_nothing_implied() {
    let builder = line(2);
    let (mut tracker, _) = builder.build();
    let mut handed_out: Vec<((Location, usize), i64)> = Vec::new();
    tracker.update_source(Source::new(0, 0), 3, 2);
    tracker.update_target(Target::new(1, 0), 1, 1);
    tracker.propagate_all();
    handed_out.extend(tracker.pushed().drain());
    assert!(tracker.tracking_anything());
    tracker.update_source(Source::new(0, 0), 3, -1);
    tracker.propagate_all();
    handed_out.extend(tracker.pushed().drain());
    assert!(tracker.tracking_anything());
    tracker.update_source(Source::new(0, 0), 3, -1);
    tracker.update_target(Target::new(1, 0), 1, -1);
    tracker.propagate_all();
    handed_out.extend(tracker.pushed().drain());

    assert!(!tracker.tracking_anything());
    handed_out.sort();
    let mut sums: Vec<((Location, usize), i64)> = Vec::new();
    for (key, diff) in handed_out {
        match sums.last_mut() {
            Some(last) if last.0 == key => last.1 += diff,
            _ => sums.push((key, diff)),
        }
    }
    assert!(!sums.is_empty());
    assert!(sums.iter().all(|(_, diff)| *diff == 0));
    for node in 0..2 {
        let state = tracker.node_state(node);
        assert!(state.targets[0].implications.frontier().is_empty());
        assert!(state.sources[0].implications.frontier().is_empty());
    }
}

#[test]
fn pushed_changes_are_those_of_the_frontiers() {
    let builder = line(2);
    let (mut tracker, _) = builder.build();
    tracker.update_source(Source::new(0, 0), 3, 1);
    tracker.update_target(Target::new(1, 0), 1, 1);
    tracker.propagate_all();
    let pushed = tracker.pushed().drain();
    assert_eq!(
        pushed,
        vec![
            ((Location::new_target(0, 0), 3), 1),
            ((Location::new_source(0, 0), 3), 1),
            ((Location::new_target(1, 0), 1), 1),
            ((Location::new_source(1, 0), 3), 1),
        ]
    );
    for ((location, time), diff) in pushed {
        assert_eq!(diff, 1);
        let state = tracker.node_state(location.node);
        let port = if location.is_target() { &state.targets[0] } else { &state.sources[0] };
        assert!(port.implications.frontier().contains(&time));
    }
    // The capability at the input of node 1 gives way, and the frontier behind
    // it falls back on what the scope input implies.
    tracker.update_target(Target::new(1, 0), 1, -1);
    tracker.propagate_all();
    assert_eq!(
        tracker.pushed().drain(),
        vec![
            ((Location::new_target(0, 0), 3), -1),
            ((Location::new_target(0, 0), 5), 1),
            ((Location::new_target(1, 0), 1), -1),
            ((Location::new_target(1, 0), 3), 1),
            ((Location::new_source(1, 0), 3), -1),
            ((Location::new_source(1, 0), 5), 1),
        ]
    );
}
