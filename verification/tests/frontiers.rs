use reachability::antichain::Antichain;
use reachability::change_batch::ChangeBatch;
use reachability::frontier::MutableAntichain;
use reachability::location::{Location, Port, Source, Target};
use reachability::order::{Key, PartialOrder, PathSummary, Value};
use reachability::worklist::Worklist;

#[test]
fn antichain_refuses_what_is_dominated() {
    let mut chain = Antichain::from_elem(5usize);
    assert!(!chain.insert(7));
    assert!(!chain.insert(5));
    assert_eq!(chain.elements(), &vec![5]);
    assert!(chain.insert(3));
    assert_eq!(chain.elements(), &vec![3]);
    assert_eq!(chain.len(), 1);
    assert_eq!(*chain.get(0), 3);
}

#[test]
fn antichain_keeps_what_is_incomparable() {
    let mut chain = Antichain::<(usize, usize)>::new();
    assert!(chain.insert((1, 2)));
    assert!(chain.insert((2, 1)));
    assert_eq!(chain.elements(), &vec![(1, 2), (2, 1)]);
    assert!(!chain.insert((2, 2)));
    assert!(chain.insert((1, 1)));
    assert_eq!(chain.elements(), &vec![(1, 1)]);
    assert!(chain.insert((0, 3)));
    assert_eq!(chain.elements(), &vec![(1, 1), (0, 3)]);
    let copy = chain.duplicate();
    assert_eq!(copy.elements(), chain.elements());
}

#[test]
fn change_batch_coalesces_and_sorts() {
    let mut batch = ChangeBatch::<usize>::new();
    assert!(batch.is_empty());
    batch.update(3, 1);
    batch.update(1, 2);
    batch.update(7, -4);
    batch.update(3, 5);
    batch.update(9, 0);
    assert_eq!(batch.len(), 3);
    assert_eq!(batch.count_of(&3), 6);
    assert_eq!(batch.count_of(&2), 0);
    assert_eq!(*batch.entry(0), (1, 2));
    batch.update(1, -2);
    assert_eq!(batch.count_of(&1), 0);
    assert!(!batch.is_empty());
    let copy = batch.duplicate();
    assert_eq!(batch.drain(), vec![(3, 6), (7, -4)]);
    assert!(batch.is_empty());
    assert!(batch.drain().is_empty());
    assert_eq!(copy.len(), 2);
}

#[test]
fn change_batch_is_empty_when_changes_cancel() {
    let mut batch = ChangeBatch::<(Location, usize)>::new();
    batch.update((Location::new_source(1, 0), 4), 1);
    batch.update((Location::new_target(1, 0), 4), 1);
    batch.update((Location::new_source(1, 0), 4), -1);
    assert_eq!(batch.drain(), vec![((Location::new_target(1, 0), 4), 1)]);
    batch.update((Location::new_target(0, 0), 4), 3);
    batch.update((Location::new_target(0, 0), 4), -3);
    assert!(batch.is_empty());
}

#[test]
fn frontier_reports_membership_not_counts() {
    let mut counts = MutableAntichain::<usize>::new();
    assert!(counts.frontier().is_empty());
    assert_eq!(counts.update_iter(vec![(5, 1)]), vec![(5, 1)]);
    assert_eq!(counts.update_iter(vec![(5, 1)]), vec![]);
    assert_eq!(counts.count_for(&5), 2);
    assert_eq!(counts.update_iter(vec![(3, 1)]), vec![(3, 1), (5, -1)]);
    assert_eq!(counts.frontier(), &vec![3]);
    assert_eq!(counts.update_iter(vec![(3, -1)]), vec![(3, -1), (5, 1)]);
    assert_eq!(counts.update_iter(vec![(5, -1)]), vec![]);
    assert_eq!(counts.update_iter(vec![(5, -1)]), vec![(5, -1)]);
    assert!(counts.frontier().is_empty());
    assert_eq!(counts.count_for(&5), 0);
}

#[test]
fn frontier_allows_counts_below_zero() {
    let mut counts = MutableAntichain::<usize>::new();
    assert_eq!(counts.update_iter(vec![(7, -1)]), vec![]);
    assert_eq!(counts.count_for(&7), -1);
    assert_eq!(counts.update_iter(vec![(7, 1), (9, 1), (7, 1)]), vec![(7, 1)]);
    assert_eq!(counts.frontier(), &vec![7]);
    assert_eq!(counts.update_iter(vec![(7, -1), (4, 1), (4, -1)]), vec![(7, -1), (9, 1)]);
    let copy = counts.duplicate();
    assert_eq!(copy.frontier(), &vec![9]);
    assert_eq!(copy.count_for(&9), 1);
}

#[test]
fn frontier_of_incomparable_times() {
    let mut counts = MutableAntichain::<(usize, usize)>::new();
    assert_eq!(
        counts.update_iter(vec![((2, 1), 1), ((1, 2), 1)]),
        vec![((1, 2), 1), ((2, 1), 1)]
    );
    assert_eq!(counts.update_iter(vec![((0, 3), 1)]), vec![((0, 3), 1)]);
    assert_eq!(counts.frontier(), &vec![(0, 3), (1, 2), (2, 1)]);
    assert_eq!(
        counts.update_iter(vec![((1, 1), 1)]),
        vec![((1, 1), 1), ((1, 2), -1), ((2, 1), -1)]
    );
    assert_eq!(counts.frontier(), &vec![(0, 3), (1, 1)]);
    assert_eq!(
        counts.update_iter(vec![((1, 1), -1)]),
        vec![((1, 1), -1), ((1, 2), 1), ((2, 1), 1)]
    );
}

#[test]
fn worklist_hands_out_the_least_first() {
    let mut work = Worklist::<usize>::new();
    assert!(work.is_empty());
    work.push(5, Location::new_target(1, 0), 1);
    work.push(3, Location::new_source(0, 0), 1);
    work.push(3, Location::new_target(0, 0), 2);
    work.push(3, Location::new_target(0, 0), -1);
    work.push(3, Location::new_target(0, 0), 2);
    assert_eq!(work.pop(), Some((3, Location::new_target(0, 0), -1)));
    assert_eq!(work.gather(&3, &Location::new_target(0, 0), -1), Some(3));
    assert_eq!(work.gather(&3, &Location::new_target(0, 0), 3), Some(3));
    assert_eq!(work.pop(), Some((3, Location::new_source(0, 0), 1)));
    assert_eq!(work.pop(), Some((5, Location::new_target(1, 0), 1)));
    assert_eq!(work.pop(), None);
    assert!(work.is_empty());
}

#[test]
fn locations_sort_by_node_then_port() {
    let a = Location::new_target(0, 3);
    let b = Location::new_source(0, 0);
    let c = Location::new_target(1, 0);
    assert!(a.precedes(&b));
    assert!(b.precedes(&c));
    assert!(!b.precedes(&a));
    assert!(!a.precedes(&a));
    assert!(a < b && b < c);
    assert!(a.same(&a.duplicate()));
    assert!(!a.same(&b));
    assert!(a.is_target() && !a.is_source());
    assert!(b.is_source() && !b.is_target());
    assert_eq!(Location::from_target(Target::new(1, 0)), c);
    assert_eq!(Location::from_source(Source::new(0, 0)), b);
    assert_eq!(b, Location { node: 0, port: Port::Source(0) });
    assert!(Source::new(0, 5).precedes(&Source::new(1, 0)));
    assert!(Target::new(1, 0).precedes(&Target::new(1, 1)));
    assert!(!Target::new(1, 1).precedes(&Target::new(1, 1)));
    assert!(Port::Target(9).precedes(&Port::Source(0)));
    assert!((1usize, 5usize).precedes(&(2, 0)));
    assert!(!(1usize, 5usize).precedes(&(1, 5)));
}

#[test]
fn usize_summaries_add() {
    assert_eq!(3usize.results_in(&4), Some(7));
    assert_eq!(1usize.results_in(&usize::MAX), None);
    assert_eq!(0usize.results_in(&usize::MAX), Some(usize::MAX));
    assert_eq!(3usize.followed_by(&4), Some(7));
    assert_eq!(usize::MAX.followed_by(&1), None);
    assert_eq!(<usize as PathSummary<usize>>::default_summary(), 0);
    assert!(PathSummary::<usize>::is_default(&0usize));
    assert!(!PathSummary::<usize>::is_default(&2usize));
    assert!(3usize.less_equal(&3) && !3usize.less_than(&3) && 3usize.less_than(&4));
}

#[test]
fn pair_summaries_act_part_by_part() {
    let step = (1usize, 0usize);
    assert_eq!(step.results_in(&(4usize, 9usize)), Some((5, 9)));
    assert_eq!(step.results_in(&(usize::MAX, 9usize)), None);
    assert_eq!(
        PathSummary::<(usize, usize)>::followed_by(&step, &(2, 3)),
        Some((3, 3))
    );
    assert!(PathSummary::<(usize, usize)>::is_default(&(0usize, 0usize)));
    assert!(!PathSummary::<(usize, usize)>::is_default(&step));
    assert!((1usize, 2usize).less_equal(&(1, 3)));
    assert!(!(1usize, 2usize).less_equal(&(2, 1)));
    assert!((1usize, 2usize).less_than(&(2, 2)));
    assert!(!(1usize, 2usize).less_than(&(1, 2)));
}

#[test]
fn worklist_gives_up_on_a_sum_that_is_no_count() {
    let mut work = Worklist::<usize>::new();
    let at = Location::new_source(2, 1);
    work.push(4, at, i64::MAX);
    work.push(4, at, 1);
    work.push(9, at, 1);
    let copy = work.duplicate();
    assert_eq!(work.pop(), Some((4, at, 1)));
    assert_eq!(work.gather(&4, &at, 1), None);
    let mut copy = copy;
    assert_eq!(copy.pop(), Some((4, at, 1)));
    assert_eq!(copy.gather(&5, &at, 1), Some(1));
    assert_eq!(copy.pop(), Some((4, at, i64::MAX)));
    assert_eq!(copy.pop(), Some((9, at, 1)));
    assert_eq!(copy.pop(), None);
}

#[test]
fn counts_that_do_not_fit_are_told() {
    let mut batch = ChangeBatch::<usize>::new();
    batch.update(3, i64::MAX - 1);
    assert!(batch.fits(&3, 1));
    assert!(!batch.fits(&3, 2));
    assert!(batch.fits(&3, i64::MIN));
    assert!(batch.fits(&4, i64::MIN));
    assert!(batch.fits(&4, i64::MAX));
    let mut counts = MutableAntichain::<usize>::new();
    assert_eq!(counts.update_iter(vec![(3, i64::MIN + 1)]), vec![]);
    assert!(counts.fits(&3, -1));
    assert!(!counts.fits(&3, -2));
    assert!(counts.fits(&2, -2));
}
