use std::collections::BTreeSet;

use bhava::{Interval, Overlay, OverlayError};

fn runs(o: &Overlay<String>) -> Vec<(usize, usize, Vec<String>)> {
    o.to_slices().into_iter().map(|Interval(s, e, labels)| (s, e, labels)).collect()
}

fn span(s: usize, e: usize, label: &str) -> Interval<String> {
    Interval(s, e, label.to_owned())
}

fn labels(ls: &[&str]) -> Vec<String> {
    ls.iter().map(|l| l.to_string()).collect()
}

fn built(spans: Vec<Interval<String>>) -> Overlay<String> {
    Overlay::build(13, spans).unwrap()
}

#[test]
fn unchanged_spans_change_nothing() {
    let mut o = built(vec![]);
    assert_eq!(o.change_spans(&vec![], &vec![]), Ok(()));
    assert_eq!(runs(&o), vec![(0, 13, labels(&[]))]);
}

#[test]
fn new_span_is_inserted() {
    let mut o = built(vec![]);
    assert_eq!(o.change_spans(&vec![], &vec![span(4, 9, "bg-blue")]), Ok(()));
    assert_eq!(
        runs(&o),
        vec![(0, 4, labels(&[])), (4, 9, labels(&["bg-blue"])), (9, 13, labels(&[]))],
    );
}

#[test]
fn two_new_overlapping_spans() {
    let mut o = built(vec![]);
    let current = vec![span(2, 7, "bg-blue"), span(4, 9, "bg-red")];
    assert_eq!(o.change_spans(&vec![], &current), Ok(()));
    assert_eq!(
        runs(&o),
        vec![
            (0, 2, labels(&[])),
            (2, 4, labels(&["bg-blue"])),
            (4, 7, labels(&["bg-blue", "bg-red"])),
            (7, 9, labels(&["bg-red"])),
            (9, 13, labels(&[])),
        ],
    );
    assert_eq!(runs(&o), runs(&built(current)));
}

#[test]
fn dropped_span_is_removed() {
    let previous = vec![span(5, 8, "green")];
    let mut o = built(previous.clone());
    assert_eq!(o.change_spans(&previous, &vec![]), Ok(()));
    assert_eq!(runs(&o), vec![(0, 13, labels(&[]))]);
}

#[test]
fn kept_spans_stay_and_moved_span_moves() {
    let previous = vec![span(1, 4, "bg-red"), span(6, 10, "bg-blue")];
    let current = vec![span(1, 4, "bg-red"), span(8, 12, "bg-blue")];
    let mut o = built(previous.clone());
    assert_eq!(o.change_spans(&previous, &current), Ok(()));
    assert_eq!(runs(&o), runs(&built(current)));
}

#[test]
fn changing_spans_refuses_invalid_span_before_any_change() {
    let previous = vec![span(1, 4, "bg-red")];
    let mut o = built(previous.clone());
    let before = runs(&o);
    assert_eq!(
        o.change_spans(&previous, &vec![span(2, 3, "a"), span(12, 14, "b")]),
        Err(OverlayError::InvalidInterval),
    );
    assert_eq!(
        o.change_spans(&vec![span(3, 3, "a")], &vec![]),
        Err(OverlayError::InvalidInterval),
    );
    assert_eq!(runs(&o), before);
}

#[test]
fn labels_come_out_in_order() {
    let mut o = built(vec![span(0, 13, "zeta"), span(0, 13, "alpha")]);
    o.insert(&"mid".to_owned(), 0, 13).unwrap();
    assert_eq!(runs(&o), vec![(0, 13, labels(&["alpha", "mid", "zeta"]))]);
    let set: BTreeSet<String> = runs(&o)[0].2.iter().cloned().collect();
    assert_eq!(set.into_iter().collect::<Vec<_>>(), labels(&["alpha", "mid", "zeta"]));
}
