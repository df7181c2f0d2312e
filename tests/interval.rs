use std::collections::BTreeSet;

use bhava::{Interval, Merge};

fn label_sets<T: Ord>(runs: Vec<Interval<Vec<T>>>) -> Vec<Interval<BTreeSet<T>>> {
    runs.into_iter()
        .map(|Interval(s, e, labels)| Interval(s, e, labels.into_iter().collect()))
        .collect()
}

fn collect<T: bhava::Label + Ord>(intervals: Vec<Interval<T>>) -> Vec<Interval<BTreeSet<T>>> {
    label_sets(Merge::from_iter(intervals).runs())
}

#[test]
fn test_merge_peek() {
    assert_eq!(Merge::<()>::from_iter(vec![]).peek(), None);
    assert_eq!(Merge::from_iter(vec![Interval(1, 2, ())]).peek(), Some(2));
}

#[test]
fn test_merge_iter() {
    assert_eq!(collect::<()>(vec![]), vec![]);
    assert_eq!(
        collect(vec![Interval(1, 2, ())]),
        vec![Interval(1, 2, BTreeSet::from([()]))],
    );
    assert_eq!(
        collect(vec![Interval(1, 2, ()), Interval(2, 3, ())]),
        vec![
            Interval(1, 2, BTreeSet::from([()])),
            Interval(2, 3, BTreeSet::from([()])),
        ],
    );
    assert_eq!(
        collect(vec![Interval(1, 2, ()), Interval(3, 4, ())]),
        vec![
            Interval(1, 2, BTreeSet::from([()])),
            Interval(2, 3, BTreeSet::from([])),
            Interval(3, 4, BTreeSet::from([()])),
        ],
    );
    assert_eq!(
        collect(vec![Interval(1, 4, ()), Interval(2, 3, ())]),
        vec![
            Interval(1, 2, BTreeSet::from([()])),
            Interval(2, 3, BTreeSet::from([()])),
            Interval(3, 4, BTreeSet::from([()])),
        ],
    );
    assert_eq!(
        collect(vec![Interval(1, 2, "a")]),
        vec![Interval(1, 2, BTreeSet::from(["a"]))],
    );
    assert_eq!(
        collect(vec![Interval(1, 2, "a"), Interval(2, 3, "b")]),
        vec![
            Interval(1, 2, BTreeSet::from(["a"])),
            Interval(2, 3, BTreeSet::from(["b"])),
        ],
    );
    assert_eq!(
        collect(vec![Interval(1, 2, "a"), Interval(3, 4, "b")]),
        vec![
            Interval(1, 2, BTreeSet::from(["a"])),
            Interval(2, 3, BTreeSet::from([])),
            Interval(3, 4, BTreeSet::from(["b"])),
        ],
    );
    assert_eq!(
        collect(vec![Interval(1, 4, "a"), Interval(2, 3, "b")]),
        vec![
            Interval(1, 2, BTreeSet::from(["a"])),
            Interval(2, 3, BTreeSet::from(["a", "b"])),
            Interval(3, 4, BTreeSet::from(["a"])),
        ],
    );
}

#[test]
fn merge_sorts_unordered_input() {
    assert_eq!(
        collect(vec![Interval(3, 4, "b"), Interval(1, 2, "a")]),
        vec![
            Interval(1, 2, BTreeSet::from(["a"])),
            Interval(2, 3, BTreeSet::from([])),
            Interval(3, 4, BTreeSet::from(["b"])),
        ],
    );
}

#[test]
fn merge_steps_one_run_at_a_time() {
    let mut m = Merge::from_iter(vec![Interval(0, 5, "a"), Interval(2, 7, "b")]);
    assert_eq!(m.peek(), Some(2));
    let first = m.next().unwrap();
    assert_eq!((first.0, first.1, first.2), (0, 2, vec!["a"]));
    assert_eq!(m.peek(), Some(5));
    let second = m.next().unwrap();
    assert_eq!((second.0, second.1), (2, 5));
    assert_eq!(second.2.into_iter().collect::<BTreeSet<_>>(), BTreeSet::from(["a", "b"]));
    let third = m.next().unwrap();
    assert_eq!((third.0, third.1, third.2), (5, 7, vec!["b"]));
    assert_eq!(m.peek(), None);
    assert!(m.next().is_none());
}

#[test]
fn merge_same_label_twice_is_listed_once() {
    assert_eq!(
        Merge::from_iter(vec![Interval(0, 4, "a"), Interval(0, 2, "a")]).runs(),
        vec![Interval(0, 2, vec!["a"]), Interval(2, 4, vec!["a"])],
    );
}
