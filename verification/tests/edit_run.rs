use std::cmp::Ordering;

use lib::range::Range;
use lib::replica::{InsertionClock, LamportClock, ReplicaId};
use lib::run_tree::{Anchor, EditRun};
use lib::summary::{apply_diff, diff, empty, Diff};

fn run(by: u64, start: usize, end: usize) -> EditRun {
    EditRun::new(Anchor::origin(), ReplicaId::new(by), Range::new(start, end), 0, 0)
}

#[test]
fn new_run_reports_its_fields() {
    let r = EditRun::new(Anchor::new(ReplicaId::new(3), 7), ReplicaId::new(4), Range::new(2, 9), 5, 6);
    assert_eq!(r.start(), 2);
    assert_eq!(r.end(), 9);
    assert_eq!(r.len(), 7);
    assert_eq!(r.replica_id(), ReplicaId::new(4));
    assert_eq!(r.insertion_ts(), 5);
    assert_eq!(r.lamport_ts(), 6);
    assert_eq!(r.inserted_at(), Anchor::new(ReplicaId::new(3), 7));
    assert!(!r.is_deleted());
    assert_eq!(r.summarize(), 7);
}

#[test]
fn extend_grows_the_end() {
    let mut r = run(1, 2, 5);
    r.extend(4);
    assert_eq!((r.start(), r.end()), (2, 9));
}

#[test]
fn split_in_the_middle() {
    let mut r = run(1, 10, 20);
    let rest = r.split(4).expect("split inside the run");
    assert_eq!((r.start(), r.end()), (10, 14));
    assert_eq!((rest.start(), rest.end()), (14, 20));
    assert_eq!(rest.replica_id(), r.replica_id());
}

#[test]
fn split_at_either_end_does_nothing() {
    let mut r = run(1, 10, 20);
    assert_eq!(r.split(0), None);
    assert_eq!(r.split(10), None);
    assert_eq!((r.start(), r.end()), (10, 20));
}

#[test]
fn split_then_append_gives_the_run_back() {
    let original = run(1, 10, 20);
    let mut r = original;
    let rest = r.split(3).unwrap();
    assert_eq!(r.append(rest), None);
    assert_eq!(r, original);
    let mut head = original;
    let mut tail = head.split(3).unwrap();
    assert_eq!(tail.prepend(head), None);
    assert_eq!(tail, original);
}

#[test]
fn append_refuses_a_run_that_does_not_continue() {
    let mut r = run(1, 0, 5);
    let other_replica = run(2, 5, 8);
    assert_eq!(r.append(other_replica), Some(other_replica));
    let gap = run(1, 6, 8);
    assert_eq!(r.append(gap), Some(gap));
    let mut deleted = run(1, 5, 8);
    deleted.delete();
    assert_eq!(r.append(deleted), Some(deleted));
    assert_eq!(r.end(), 5);
}

#[test]
fn prepend_refuses_a_run_that_does_not_continue() {
    let mut r = run(1, 5, 8);
    let other_replica = run(2, 0, 5);
    assert_eq!(r.prepend(other_replica), Some(other_replica));
    assert_eq!(r.start(), 5);
}

#[test]
fn delete_marks_and_zeroes_the_summary() {
    let mut r = run(1, 0, 5);
    r.delete();
    assert!(r.is_deleted());
    assert_eq!(r.summarize(), 0);
    assert_eq!(r.len(), 5);
}

fn at(anchor: Anchor, lamport: u64, by: u64) -> EditRun {
    EditRun::new(anchor, ReplicaId::new(by), Range::new(0, 1), 0, lamport)
}

#[test]
fn runs_at_different_anchors_are_not_comparable() {
    let a = at(Anchor::origin(), 1, 1);
    let b = at(Anchor::new(ReplicaId::new(1), 3), 1, 1);
    assert_eq!(a.partial_cmp(&b), None);
}

#[test]
fn later_lamport_timestamp_comes_first() {
    let a = at(Anchor::origin(), 5, 1);
    let b = at(Anchor::origin(), 3, 2);
    assert_eq!(a.partial_cmp(&b), Some(Ordering::Less));
    assert_eq!(b.partial_cmp(&a), Some(Ordering::Greater));
    assert!(a < b);
}

#[test]
fn equal_timestamps_are_ordered_by_replica() {
    let a = at(Anchor::origin(), 4, 1);
    let b = at(Anchor::origin(), 4, 2);
    assert_eq!(a.partial_cmp(&b), Some(Ordering::Less));
    assert_eq!(b.partial_cmp(&a), Some(Ordering::Greater));
}

#[test]
fn comparison_never_reports_equal() {
    let a = at(Anchor::origin(), 4, 1);
    assert_ne!(a.partial_cmp(&a), Some(Ordering::Equal));
    assert_eq!(a.partial_cmp(&a), Some(Ordering::Less));
    // Same anchor, timestamp and replica: later insertions, then later
    // ranges, then deleted runs come after.
    let b = EditRun::new(Anchor::origin(), ReplicaId::new(1), Range::new(0, 1), 3, 4);
    assert_eq!(b.partial_cmp(&a), Some(Ordering::Greater));
    assert_eq!(a.partial_cmp(&b), Some(Ordering::Less));
    let c = EditRun::new(Anchor::origin(), ReplicaId::new(1), Range::new(5, 6), 0, 4);
    assert_eq!(a.partial_cmp(&c), Some(Ordering::Less));
    assert_eq!(c.partial_cmp(&a), Some(Ordering::Greater));
    let mut d = a;
    d.delete();
    assert_eq!(a.partial_cmp(&d), Some(Ordering::Less));
    assert_eq!(d.partial_cmp(&a), Some(Ordering::Greater));
}

#[test]
fn diff_and_apply() {
    assert_eq!(empty(), 0);
    assert_eq!(diff(3, 5), Diff::Add(2));
    assert_eq!(diff(5, 3), Diff::Subtract(2));
    assert_eq!(diff(4, 4), Diff::Subtract(0));
    let mut s = 10;
    apply_diff(&mut s, diff(3, 5));
    assert_eq!(s, 12);
    apply_diff(&mut s, diff(9, 2));
    assert_eq!(s, 5);
}

#[test]
fn anchors_and_ids() {
    assert_eq!(Anchor::origin(), Anchor::new(ReplicaId::zero(), 0));
    let a = Anchor::new(ReplicaId::new(9), 4);
    assert_eq!(a.replica_id(), ReplicaId::new(9));
    assert_eq!(a.offset(), 4);
    assert_eq!(ReplicaId::new(0x1_0000_0005).as_u32(), 5);
    assert_eq!(ReplicaId::new(77).as_u64(), 77);
}

#[test]
fn ranges() {
    let r = Range::new(3, 8);
    assert_eq!(r.len(), 5);
    assert!(!r.is_empty());
    assert!(Range::new(4, 4).is_empty());
    assert_eq!(r.shifted(10), Range::new(13, 18));
}

#[test]
fn clocks_count_up() {
    let mut ic = InsertionClock::new();
    let mut lc = LamportClock::new();
    assert_eq!((ic.next(), ic.next()), (0, 1));
    assert_eq!((lc.next(), lc.next(), lc.next()), (0, 1, 2));
}
