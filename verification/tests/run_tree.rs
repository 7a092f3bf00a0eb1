use lib::gtree::LeafIdx;
use lib::range::Range;
use lib::replica::{InsertionClock, LamportClock, ReplicaId};
use lib::run_tree::{Anchor, DeletionOutcome, EditRun, InsertionOutcome, RunTree};

/// A tree owned by replica 1 holding one run of replica `by`, characters `0..len`.
fn tree_with(by: u64, len: usize) -> (RunTree, LeafIdx) {
    let first = EditRun::new(Anchor::origin(), ReplicaId::new(by), Range::new(0, len), 0, 0);
    RunTree::new(ReplicaId::new(1), first)
}

fn clocks() -> (InsertionClock, LamportClock) {
    (InsertionClock::new(), LamportClock::new())
}

#[test]
fn new_tree_holds_first_run() {
    let (tree, idx) = tree_with(1, 5);
    assert_eq!(tree.len(), 5);
    assert_eq!(tree.count_empty_leaves(), (0, 1));
    let run = tree.get_run(idx);
    assert_eq!(run.start(), 0);
    assert_eq!(run.end(), 5);
    tree.assert_invariants();
}

#[test]
fn insert_at_end_of_own_run_extends_it() {
    let (mut tree, idx) = tree_with(1, 5);
    let (mut ic, mut lc) = clocks();
    let (anchor, outcome) = tree.insert(5, 3, 5, &mut ic, &mut lc);
    assert_eq!(outcome, InsertionOutcome::ExtendedLastRun);
    assert_eq!(anchor, Anchor::new(ReplicaId::new(1), 5));
    assert_eq!(tree.len(), 8);
    assert_eq!(tree.get_run(idx).end(), 8);
    // No new run, so the clocks were not used.
    assert_eq!(ic.next(), 0);
    assert_eq!(lc.next(), 0);
}

#[test]
fn insert_at_start_prepends_a_run_at_the_origin() {
    let (mut tree, idx) = tree_with(1, 5);
    let (mut ic, mut lc) = clocks();
    let (anchor, outcome) = tree.insert(0, 2, 5, &mut ic, &mut lc);
    assert_eq!(anchor, Anchor::origin());
    let inserted = match outcome {
        InsertionOutcome::InsertedRun { inserted_idx } => inserted_idx,
        other => panic!("unexpected outcome {:?}", other),
    };
    assert_ne!(inserted, idx);
    let run = tree.get_run(inserted);
    assert_eq!((run.start(), run.end()), (5, 7));
    assert_eq!(run.replica_id(), ReplicaId::new(1));
    assert_eq!(run.insertion_ts(), 0);
    assert_eq!(run.lamport_ts(), 0);
    assert_eq!(run.inserted_at(), Anchor::origin());
    assert_eq!(tree.len(), 7);
    assert_eq!(ic.next(), 1);
    assert_eq!(lc.next(), 1);
}

#[test]
fn insert_after_another_replicas_run_adds_a_run() {
    let (mut tree, idx) = tree_with(2, 5);
    let (mut ic, mut lc) = clocks();
    let (anchor, outcome) = tree.insert(5, 3, 0, &mut ic, &mut lc);
    assert_eq!(anchor, Anchor::new(ReplicaId::new(2), 5));
    let inserted = match outcome {
        InsertionOutcome::InsertedRun { inserted_idx } => inserted_idx,
        other => panic!("unexpected outcome {:?}", other),
    };
    assert_eq!(tree.get_run(inserted).inserted_at(), Anchor::new(ReplicaId::new(2), 5));
    assert_eq!(tree.get_run(idx).len(), 5);
    assert_eq!(tree.len(), 8);
    assert_eq!(tree.count_empty_leaves(), (0, 2));
}

#[test]
fn insert_in_the_middle_splits_the_run() {
    let (mut tree, idx) = tree_with(2, 8);
    let (mut ic, mut lc) = clocks();
    let (anchor, outcome) = tree.insert(2, 4, 100, &mut ic, &mut lc);
    // The anchor names the end of the run that was found.
    assert_eq!(anchor, Anchor::new(ReplicaId::new(2), 8));
    match outcome {
        InsertionOutcome::SplitRun {
            split_id,
            split_insertion,
            split_at_offset,
            split_idx,
            inserted_idx,
        } => {
            assert_eq!(split_id, ReplicaId::new(2));
            assert_eq!(split_insertion, 0);
            assert_eq!(split_at_offset, 2);
            assert_eq!((tree.get_run(idx).start(), tree.get_run(idx).end()), (0, 2));
            let split = tree.get_run(split_idx);
            assert_eq!((split.start(), split.end()), (2, 8));
            let inserted = tree.get_run(inserted_idx);
            assert_eq!((inserted.start(), inserted.end()), (100, 104));
        },
        other => panic!("unexpected outcome {:?}", other),
    }
    assert_eq!(tree.len(), 12);
    assert_eq!(tree.count_empty_leaves(), (0, 3));
}

#[test]
fn insert_grows_the_length_by_the_run_length() {
    let (mut tree, _) = tree_with(2, 4);
    let (mut ic, mut lc) = clocks();
    for (offset, len) in [(0usize, 3usize), (7, 2), (4, 5), (1, 1)] {
        let before = tree.len();
        tree.insert(offset, len, 1000 + before, &mut ic, &mut lc);
        assert_eq!(tree.len(), before + len);
    }
}

#[test]
fn delete_whole_run() {
    let (mut tree, idx) = tree_with(1, 5);
    let (start, end, outcome) = tree.delete(Range::new(0, 5));
    assert_eq!(outcome, DeletionOutcome::DeletedWholeRun);
    assert_eq!(start, Anchor::new(ReplicaId::new(1), 0));
    assert_eq!(end, Anchor::new(ReplicaId::new(1), 5));
    assert_eq!(tree.len(), 0);
    assert!(tree.get_run(idx).is_deleted());
    assert_eq!(tree.count_empty_leaves(), (1, 1));
}

#[test]
fn delete_in_the_middle_of_a_run() {
    let (mut tree, idx) = tree_with(1, 10);
    let (start, end, outcome) = tree.delete(Range::new(3, 6));
    assert_eq!(start, Anchor::new(ReplicaId::new(1), 3));
    assert_eq!(end, Anchor::new(ReplicaId::new(1), 6));
    match outcome {
        DeletionOutcome::DeletedInMiddleOfSingleRun {
            replica_id,
            insertion_ts,
            range,
            idx_of_deleted,
            idx_of_split,
        } => {
            assert_eq!(replica_id, ReplicaId::new(1));
            assert_eq!(insertion_ts, 0);
            assert_eq!(range, Range::new(3, 6));
            let deleted = tree.get_run(idx_of_deleted);
            assert!(deleted.is_deleted());
            assert_eq!((deleted.start(), deleted.end()), (3, 6));
            let split = tree.get_run(idx_of_split);
            assert!(!split.is_deleted());
            assert_eq!((split.start(), split.end()), (6, 10));
        },
        other => panic!("unexpected outcome {:?}", other),
    }
    assert_eq!((tree.get_run(idx).start(), tree.get_run(idx).end()), (0, 3));
    assert_eq!(tree.len(), 7);
    assert_eq!(tree.count_empty_leaves(), (1, 3));
}

#[test]
fn delete_head_of_a_run_splits_it() {
    let (mut tree, idx) = tree_with(1, 5);
    let (_, _, outcome) = tree.delete(Range::new(0, 2));
    match outcome {
        DeletionOutcome::DeletionSplitSingleRun { replica_id, insertion_ts, offset, idx: rest } => {
            assert_eq!(replica_id, ReplicaId::new(1));
            assert_eq!(insertion_ts, 0);
            assert_eq!(offset, 2);
            assert!(tree.get_run(idx).is_deleted());
            assert_eq!((tree.get_run(rest).start(), tree.get_run(rest).end()), (2, 5));
            assert!(!tree.get_run(rest).is_deleted());
        },
        other => panic!("unexpected outcome {:?}", other),
    }
    assert_eq!(tree.len(), 3);
}

#[test]
fn delete_tail_of_a_run_splits_it() {
    let (mut tree, idx) = tree_with(1, 5);
    let (start, end, outcome) = tree.delete(Range::new(3, 5));
    assert_eq!(start, Anchor::new(ReplicaId::new(1), 3));
    assert_eq!(end, Anchor::new(ReplicaId::new(1), 5));
    match outcome {
        DeletionOutcome::DeletionSplitSingleRun { offset, idx: deleted, .. } => {
            assert_eq!(offset, 3);
            assert!(tree.get_run(deleted).is_deleted());
            assert_eq!((tree.get_run(deleted).start(), tree.get_run(deleted).end()), (3, 5));
            assert_eq!(tree.get_run(idx).end(), 3);
        },
        other => panic!("unexpected outcome {:?}", other),
    }
    assert_eq!(tree.len(), 3);
}

#[test]
fn deleted_head_merges_into_the_deleted_run_before() {
    let (mut tree, idx) = tree_with(1, 5);
    let rest = match tree.delete(Range::new(0, 2)).2 {
        DeletionOutcome::DeletionSplitSingleRun { idx, .. } => idx,
        other => panic!("unexpected outcome {:?}", other),
    };
    let (start, _, outcome) = tree.delete(Range::new(0, 1));
    assert_eq!(start, Anchor::new(ReplicaId::new(1), 2));
    assert_eq!(
        outcome,
        DeletionOutcome::DeletionMergedInPreviousRun {
            replica_id: ReplicaId::new(1),
            insertion_ts: 0,
            offset: 3,
            deleted: 1,
        }
    );
    assert_eq!((tree.get_run(idx).start(), tree.get_run(idx).end()), (0, 3));
    assert!(tree.get_run(idx).is_deleted());
    assert_eq!((tree.get_run(rest).start(), tree.get_run(rest).end()), (3, 5));
    assert_eq!(tree.len(), 2);
    assert_eq!(tree.count_empty_leaves(), (1, 2));
}

#[test]
fn deleted_tail_merges_into_the_deleted_run_after() {
    let (mut tree, idx) = tree_with(1, 5);
    let tail = match tree.delete(Range::new(3, 5)).2 {
        DeletionOutcome::DeletionSplitSingleRun { idx, .. } => idx,
        other => panic!("unexpected outcome {:?}", other),
    };
    let (_, end, outcome) = tree.delete(Range::new(2, 3));
    assert_eq!(end, Anchor::new(ReplicaId::new(1), 3));
    assert_eq!(
        outcome,
        DeletionOutcome::DeletionMergedInNextRun {
            replica_id: ReplicaId::new(1),
            insertion_ts: 0,
            offset: 2,
            deleted: 1,
        }
    );
    assert_eq!((tree.get_run(idx).start(), tree.get_run(idx).end()), (0, 2));
    assert_eq!((tree.get_run(tail).start(), tree.get_run(tail).end()), (2, 5));
    assert_eq!(tree.len(), 2);
}

#[test]
fn delete_across_runs_splits_both_ends() {
    let (mut tree, first) = tree_with(2, 5);
    let (mut ic, mut lc) = clocks();
    let second = match tree.insert(5, 3, 0, &mut ic, &mut lc).1 {
        InsertionOutcome::InsertedRun { inserted_idx } => inserted_idx,
        other => panic!("unexpected outcome {:?}", other),
    };
    let (start, end, outcome) = tree.delete(Range::new(3, 6));
    assert_eq!(start, Anchor::new(ReplicaId::new(2), 3));
    assert_eq!(end, Anchor::new(ReplicaId::new(1), 1));
    match outcome {
        DeletionOutcome::DeletedAcrossRuns { split_start, split_end } => {
            let (id, ts, offset, deleted) = split_start.expect("the first run was split");
            assert_eq!((id, ts, offset), (ReplicaId::new(2), 0, 3));
            assert!(tree.get_run(deleted).is_deleted());
            assert_eq!((tree.get_run(deleted).start(), tree.get_run(deleted).end()), (3, 5));
            let (id, ts, offset, rest) = split_end.expect("the last run was split");
            assert_eq!((id, ts, offset), (ReplicaId::new(1), 0, 1));
            assert!(!tree.get_run(rest).is_deleted());
            assert_eq!((tree.get_run(rest).start(), tree.get_run(rest).end()), (1, 3));
        },
        other => panic!("unexpected outcome {:?}", other),
    }
    assert_eq!(tree.get_run(first).end(), 3);
    assert!(tree.get_run(second).is_deleted());
    assert_eq!(tree.len(), 5);
}

#[test]
fn delete_across_whole_runs_splits_nothing() {
    let (mut tree, first) = tree_with(2, 5);
    let (mut ic, mut lc) = clocks();
    let second = match tree.insert(5, 3, 0, &mut ic, &mut lc).1 {
        InsertionOutcome::InsertedRun { inserted_idx } => inserted_idx,
        other => panic!("unexpected outcome {:?}", other),
    };
    let third = match tree.insert(8, 2, 50, &mut ic, &mut lc).1 {
        InsertionOutcome::InsertedRun { inserted_idx } => inserted_idx,
        other => panic!("unexpected outcome {:?}", other),
    };
    let (_, _, outcome) = tree.delete(Range::new(0, 10));
    assert_eq!(outcome, DeletionOutcome::DeletedAcrossRuns { split_start: None, split_end: None });
    for idx in [first, second, third] {
        assert!(tree.get_run(idx).is_deleted());
    }
    assert_eq!(tree.len(), 0);
    assert_eq!(tree.count_empty_leaves(), (3, 3));
}

#[test]
fn delete_shrinks_the_length_by_the_range_length_and_keeps_handles() {
    let (mut tree, first) = tree_with(2, 20);
    let (mut ic, mut lc) = clocks();
    let mut handles = vec![first];
    if let InsertionOutcome::SplitRun { split_idx, inserted_idx, .. } =
        tree.insert(10, 5, 0, &mut ic, &mut lc).1
    {
        handles.push(split_idx);
        handles.push(inserted_idx);
    }
    for (start, end) in [(2usize, 4usize), (8, 17), (0, 1), (5, 9)] {
        let before = tree.len();
        tree.delete(Range::new(start, end));
        assert_eq!(tree.len(), before - (end - start));
        for idx in &handles {
            let _ = tree.get_run(*idx);
        }
    }
}

#[test]
fn deleting_inserted_text_gives_the_document_back() {
    let (mut tree, first) = tree_with(2, 8);
    let (mut ic, mut lc) = clocks();
    let (_, outcome) = tree.insert(3, 4, 0, &mut ic, &mut lc);
    let (split, inserted) = match outcome {
        InsertionOutcome::SplitRun { split_idx, inserted_idx, .. } => (split_idx, inserted_idx),
        other => panic!("unexpected outcome {:?}", other),
    };
    let (start, end, _) = tree.delete(Range::new(3, 7));
    assert_eq!(start, Anchor::new(ReplicaId::new(1), 0));
    assert_eq!(end, Anchor::new(ReplicaId::new(1), 4));
    assert_eq!(tree.len(), 8);
    assert!(tree.get_run(inserted).is_deleted());
    assert!(!tree.get_run(first).is_deleted());
    assert!(!tree.get_run(split).is_deleted());
    assert_eq!((tree.get_run(first).start(), tree.get_run(first).end()), (0, 3));
    assert_eq!((tree.get_run(split).start(), tree.get_run(split).end()), (3, 8));
}
