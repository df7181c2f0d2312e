use std::collections::BTreeSet;

use bhava::{Interval, Overlay, OverlayError};

type Runs = Vec<(usize, usize, BTreeSet<&'static str>)>;

fn runs(o: &Overlay<&'static str>) -> Runs {
    o.to_slices()
        .into_iter()
        .map(|Interval(s, e, labels)| (s, e, labels.into_iter().collect()))
        .collect()
}

fn set(labels: &[&'static str]) -> BTreeSet<&'static str> {
    labels.iter().copied().collect()
}

fn build(length: usize, intervals: Vec<Interval<&'static str>>) -> Overlay<&'static str> {
    Overlay::build(length, intervals).unwrap()
}

fn assert_partition(o: &Overlay<&'static str>) {
    let r = runs(o);
    let mut at = 0;
    for (i, (s, e, labels)) in r.iter().enumerate() {
        assert_eq!(*s, at);
        assert!(s < e);
        if i > 0 {
            assert_ne!(&r[i - 1].2, labels);
        }
        at = *e;
    }
    assert_eq!(at, o.len());
}

#[test]
fn build_without_intervals_is_one_plain_run() {
    let o = build(13, vec![]);
    assert_eq!(runs(&o), vec![(0, 13, set(&[]))]);
}

#[test]
fn build_one_interval() {
    let o = build(13, vec![Interval(1, 4, "bg-red")]);
    assert_eq!(
        runs(&o),
        vec![(0, 1, set(&[])), (1, 4, set(&["bg-red"])), (4, 13, set(&[]))],
    );
}

#[test]
fn build_nested_intervals() {
    let o = build(13, vec![Interval(2, 9, "bg-blue"), Interval(5, 7, "bg-red")]);
    assert_eq!(
        runs(&o),
        vec![
            (0, 2, set(&[])),
            (2, 5, set(&["bg-blue"])),
            (5, 7, set(&["bg-blue", "bg-red"])),
            (7, 9, set(&["bg-blue"])),
            (9, 13, set(&[])),
        ],
    );
}

#[test]
fn build_overlapping_intervals() {
    let o = build(
        13,
        vec![Interval(1, 5, "bg-red"), Interval(3, 8, "bg-green"), Interval(7, 10, "bg-blue")],
    );
    assert_eq!(
        runs(&o),
        vec![
            (0, 1, set(&[])),
            (1, 3, set(&["bg-red"])),
            (3, 5, set(&["bg-red", "bg-green"])),
            (5, 7, set(&["bg-green"])),
            (7, 8, set(&["bg-green", "bg-blue"])),
            (8, 10, set(&["bg-blue"])),
            (10, 13, set(&[])),
        ],
    );
}

#[test]
fn build_same_range_two_labels_is_their_union() {
    let o = build(6, vec![Interval(2, 4, "a"), Interval(2, 4, "b")]);
    assert_eq!(
        runs(&o),
        vec![(0, 2, set(&[])), (2, 4, set(&["a", "b"])), (4, 6, set(&[]))],
    );
}

#[test]
fn build_merges_abutting_runs_with_equal_labels() {
    let o = build(6, vec![Interval(0, 2, "a"), Interval(2, 4, "a")]);
    assert_eq!(runs(&o), vec![(0, 4, set(&["a"])), (4, 6, set(&[]))]);
    let o = build(6, vec![Interval(0, 6, "a"), Interval(2, 3, "a")]);
    assert_eq!(runs(&o), vec![(0, 6, set(&["a"]))]);
}

#[test]
fn build_empty_buffer_has_no_runs() {
    let o = build(0, vec![]);
    assert_eq!(runs(&o), vec![]);
    assert_eq!(o.len(), 0);
}

#[test]
fn build_covers_the_whole_buffer() {
    let o = build(
        20,
        vec![Interval(3, 5, "x"), Interval(4, 12, "y"), Interval(15, 20, "x"), Interval(0, 1, "z")],
    );
    assert_partition(&o);
    assert_eq!(runs(&o).last().unwrap().1, 20);
}

#[test]
fn build_refuses_invalid_intervals() {
    assert_eq!(
        Overlay::build(13, vec![Interval(4, 4, "a")]).err(),
        Some(OverlayError::InvalidInterval),
    );
    assert_eq!(
        Overlay::build(13, vec![Interval(5, 3, "a")]).err(),
        Some(OverlayError::InvalidInterval),
    );
    assert_eq!(
        Overlay::build(13, vec![Interval(1, 2, "a"), Interval(10, 14, "b")]).err(),
        Some(OverlayError::InvalidInterval),
    );
    assert!(Overlay::build(13, vec![Interval(10, 13, "b")]).is_ok());
}

#[test]
fn build_ignores_input_order() {
    let a = build(
        13,
        vec![Interval(1, 5, "bg-red"), Interval(3, 8, "bg-green"), Interval(7, 10, "bg-blue")],
    );
    let b = build(
        13,
        vec![Interval(7, 10, "bg-blue"), Interval(1, 5, "bg-red"), Interval(3, 8, "bg-green")],
    );
    assert_eq!(runs(&a), runs(&b));
}

#[test]
fn insert_matches_build() {
    let mut o = build(13, vec![]);
    assert_eq!(o.insert(&"bg-blue", 4, 9), Ok(()));
    let expected = build(13, vec![Interval(4, 9, "bg-blue")]);
    assert_eq!(runs(&o), runs(&expected));
    assert_eq!(o.to_slices(), expected.to_slices());
    assert_eq!(
        runs(&o),
        vec![(0, 4, set(&[])), (4, 9, set(&["bg-blue"])), (9, 13, set(&[]))],
    );
}

#[test]
fn insert_then_remove_restores_plain_run() {
    let mut o = build(13, vec![]);
    assert_eq!(o.insert(&"bg-blue", 4, 9), Ok(()));
    assert_eq!(o.remove(&"bg-blue", 4, 9), Ok(()));
    assert_eq!(runs(&o), vec![(0, 13, set(&[]))]);
}

#[test]
fn insert_twice_is_insert_once() {
    let mut once = build(12, vec![Interval(1, 11, "test3")]);
    once.insert(&"test4", 2, 10).unwrap();
    let mut twice = build(12, vec![Interval(1, 11, "test3")]);
    twice.insert(&"test4", 2, 10).unwrap();
    twice.insert(&"test4", 2, 10).unwrap();
    assert_eq!(runs(&once), runs(&twice));
}

#[test]
fn remove_undoes_insert_where_label_was_absent() {
    let untouched = build(26, vec![Interval(4, 7, "a"), Interval(11, 15, "b")]);
    let mut o = build(26, vec![Interval(4, 7, "a"), Interval(11, 15, "b")]);
    o.insert(&"c", 5, 23).unwrap();
    assert_ne!(runs(&o), runs(&untouched));
    o.remove(&"c", 5, 23).unwrap();
    assert_eq!(runs(&o), runs(&untouched));
}

#[test]
fn insert_sequence_like_nested_spans() {
    // "Lorem ipsum!" with spans laid one inside the other.
    let mut o = build(12, vec![]);
    o.insert(&"test3", 1, 11).unwrap();
    assert_eq!(
        runs(&o),
        vec![(0, 1, set(&[])), (1, 11, set(&["test3"])), (11, 12, set(&[]))],
    );
    o.insert(&"test4", 2, 10).unwrap();
    assert_eq!(
        runs(&o),
        vec![
            (0, 1, set(&[])),
            (1, 2, set(&["test3"])),
            (2, 10, set(&["test3", "test4"])),
            (10, 11, set(&["test3"])),
            (11, 12, set(&[])),
        ],
    );
    o.insert(&"test5", 4, 7).unwrap();
    assert_eq!(
        runs(&o),
        vec![
            (0, 1, set(&[])),
            (1, 2, set(&["test3"])),
            (2, 4, set(&["test3", "test4"])),
            (4, 7, set(&["test3", "test4", "test5"])),
            (7, 10, set(&["test3", "test4"])),
            (10, 11, set(&["test3"])),
            (11, 12, set(&[])),
        ],
    );
    assert_partition(&o);
}

#[test]
fn insert_sequence_of_overlapping_spans() {
    // "Lorem ipsum dolor sit amet"
    let mut o = build(26, vec![]);
    o.insert(&"a", 4, 11).unwrap();
    o.insert(&"b", 7, 18).unwrap();
    assert_eq!(
        runs(&o),
        vec![
            (0, 4, set(&[])),
            (4, 7, set(&["a"])),
            (7, 11, set(&["a", "b"])),
            (11, 18, set(&["b"])),
            (18, 26, set(&[])),
        ],
    );
    o.insert(&"c", 15, 23).unwrap();
    assert_eq!(
        runs(&o),
        vec![
            (0, 4, set(&[])),
            (4, 7, set(&["a"])),
            (7, 11, set(&["a", "b"])),
            (11, 15, set(&["b"])),
            (15, 18, set(&["b", "c"])),
            (18, 23, set(&["c"])),
            (23, 26, set(&[])),
        ],
    );
}

#[test]
fn remove_merges_runs_that_become_equal() {
    let mut o = build(12, vec![]);
    o.insert(&"test3", 6, 7).unwrap();
    o.insert(&"test2", 4, 9).unwrap();
    o.insert(&"test1", 1, 11).unwrap();
    o.remove(&"test3", 6, 7).unwrap();
    assert_eq!(
        runs(&o),
        vec![
            (0, 1, set(&[])),
            (1, 4, set(&["test1"])),
            (4, 9, set(&["test1", "test2"])),
            (9, 11, set(&["test1"])),
            (11, 12, set(&[])),
        ],
    );
    assert_partition(&o);
}

#[test]
fn remove_part_of_a_run() {
    let mut o = build(13, vec![Interval(2, 10, "bg-blue")]);
    o.remove(&"bg-blue", 4, 6).unwrap();
    assert_eq!(
        runs(&o),
        vec![
            (0, 2, set(&[])),
            (2, 4, set(&["bg-blue"])),
            (4, 6, set(&[])),
            (6, 10, set(&["bg-blue"])),
            (10, 13, set(&[])),
        ],
    );
}

#[test]
fn remove_absent_label_changes_nothing() {
    let mut o = build(13, vec![Interval(2, 10, "bg-blue")]);
    let before = runs(&o);
    o.remove(&"bg-red", 0, 13).unwrap();
    assert_eq!(runs(&o), before);
}

#[test]
fn edits_keep_adjacent_runs_distinct() {
    let mut o = build(30, vec![Interval(0, 30, "base")]);
    let edits: [(&str, usize, usize, bool); 8] = [
        ("x", 3, 9, true),
        ("y", 6, 20, true),
        ("x", 9, 14, true),
        ("y", 6, 12, false),
        ("base", 0, 30, false),
        ("x", 0, 30, true),
        ("x", 5, 25, false),
        ("y", 0, 30, false),
    ];
    for (label, s, e, add) in edits {
        if add {
            o.insert(&label, s, e).unwrap();
        } else {
            o.remove(&label, s, e).unwrap();
        }
        assert_partition(&o);
    }
    assert_eq!(
        runs(&o),
        vec![(0, 5, set(&["x"])), (5, 25, set(&[])), (25, 30, set(&["x"]))],
    );
}

#[test]
fn edits_refuse_bad_ranges_and_leave_overlay_unchanged() {
    let mut o = build(13, vec![Interval(1, 4, "bg-red")]);
    let before = runs(&o);
    assert_eq!(o.insert(&"a", 5, 5), Err(OverlayError::InvalidInterval));
    assert_eq!(o.insert(&"a", 6, 2), Err(OverlayError::InvalidInterval));
    assert_eq!(o.insert(&"a", 6, 14), Err(OverlayError::OutOfRange));
    assert_eq!(o.remove(&"bg-red", 3, 3), Err(OverlayError::InvalidInterval));
    assert_eq!(o.remove(&"bg-red", 0, 20), Err(OverlayError::OutOfRange));
    assert_eq!(runs(&o), before);
}

#[test]
fn edit_of_whole_buffer() {
    let mut o = build(13, vec![Interval(1, 4, "bg-red")]);
    o.insert(&"all", 0, 13).unwrap();
    assert_eq!(
        runs(&o),
        vec![
            (0, 1, set(&["all"])),
            (1, 4, set(&["all", "bg-red"])),
            (4, 13, set(&["all"])),
        ],
    );
}

#[test]
fn find_boundary_only_inside_runs() {
    let o = build(13, vec![Interval(1, 4, "bg-red")]);
    assert_eq!(o.find_boundary(0), None);
    assert_eq!(o.find_boundary(1), None);
    assert_eq!(o.find_boundary(2), Some(1));
    assert_eq!(o.find_boundary(4), None);
    assert_eq!(o.find_boundary(12), Some(2));
    assert_eq!(o.find_boundary(13), None);
    assert_eq!(o.find_boundary(20), None);
}

#[test]
fn string_labels() {
    let mut o: Overlay<String> =
        Overlay::build(13, vec![Interval(2, 9, "bg-blue".to_owned())]).unwrap();
    o.insert(&"bg-blue".to_owned(), 5, 11).unwrap();
    o.insert(&"héllo".to_owned(), 0, 3).unwrap();
    let slices = o.to_slices();
    assert_eq!(
        slices,
        vec![
            Interval(0, 2, vec!["héllo".to_owned()]),
            Interval(2, 3, vec!["bg-blue".to_owned(), "héllo".to_owned()]),
            Interval(3, 11, vec!["bg-blue".to_owned()]),
            Interval(11, 13, vec![]),
        ],
    );
}
