//! The order of runs inserted at the same anchor.

use vstd::prelude::*;

use core::cmp::Ordering;
use vstd::std_specs::cmp::PartialOrdSpecImpl;

use crate::run_tree::{Anchor, EditRun, RunModel};

verus! {

/// How two runs are ordered: runs inserted at different anchors are not
/// comparable. Among runs at one anchor the later one on the Lamport clock
/// comes first; equal timestamps are ordered by replica, then by insertion
/// timestamp, then by range, with a live run before a deleted one. Two runs
/// that agree on all of these are the same run, and the first is put first:
/// the order never calls two runs equal.
pub open spec fn run_order(a: RunModel, b: RunModel) -> Option<Ordering> {
    if a.inserted_at != b.inserted_at {
        None
    } else if b.lamport_ts < a.lamport_ts {
        Some(Ordering::Less)
    } else if a.lamport_ts < b.lamport_ts {
        Some(Ordering::Greater)
    } else if a.inserted_by@ < b.inserted_by@ {
        Some(Ordering::Less)
    } else if b.inserted_by@ < a.inserted_by@ {
        Some(Ordering::Greater)
    } else if a.insertion_ts < b.insertion_ts {
        Some(Ordering::Less)
    } else if b.insertion_ts < a.insertion_ts {
        Some(Ordering::Greater)
    } else if a.start < b.start {
        Some(Ordering::Less)
    } else if b.start < a.start {
        Some(Ordering::Greater)
    } else if a.end < b.end {
        Some(Ordering::Less)
    } else if b.end < a.end {
        Some(Ordering::Greater)
    } else if a.deleted && !b.deleted {
        Some(Ordering::Greater)
    } else {
        Some(Ordering::Less)
    }
}

impl PartialOrd for EditRun {
    fn partial_cmp(&self, other: &Self) -> (ord: Option<Ordering>)
        ensures
            self@.inserted_at != other@.inserted_at ==> ord is None,
            self@.inserted_at == other@.inserted_at ==> ord is Some,
            self@.inserted_at == other@.inserted_at && self@.lamport_ts > other@.lamport_ts ==> ord
                == Some(Ordering::Less),
            self@.inserted_at == other@.inserted_at && self@.lamport_ts < other@.lamport_ts ==> ord
                == Some(Ordering::Greater),
            self@.inserted_at == other@.inserted_at && self@.lamport_ts == other@.lamport_ts
                && self@.inserted_by@ < other@.inserted_by@ ==> ord == Some(Ordering::Less),
            self@.inserted_at == other@.inserted_at && self@.lamport_ts == other@.lamport_ts
                && self@.inserted_by@ > other@.inserted_by@ ==> ord == Some(Ordering::Greater),
            ord != Some(Ordering::Equal),
    {
        // Runs inserted at different positions are unrelated.
        let here = self.inserted_at();
        let there = other.inserted_at();
        proof {
            Anchor::lemma_view_injective(here, there);
        }
        if here != there {
            return None;
        }
        // At one anchor: descending on Lamport timestamps, then ascending on
        // replica ids, insertion timestamps and ranges, live before deleted.
        let (mine, theirs) = (self.lamport_ts(), other.lamport_ts());
        if theirs < mine {
            return Some(Ordering::Less);
        } else if mine < theirs {
            return Some(Ordering::Greater);
        }
        let (mine, theirs) = (self.replica_id().as_u64(), other.replica_id().as_u64());
        if mine < theirs {
            return Some(Ordering::Less);
        } else if theirs < mine {
            return Some(Ordering::Greater);
        }
        let (mine, theirs) = (self.insertion_ts(), other.insertion_ts());
        if mine < theirs {
            return Some(Ordering::Less);
        } else if theirs < mine {
            return Some(Ordering::Greater);
        }
        let (mine, theirs) = (self.start(), other.start());
        if mine < theirs {
            return Some(Ordering::Less);
        } else if theirs < mine {
            return Some(Ordering::Greater);
        }
        let (mine, theirs) = (self.end(), other.end());
        if mine < theirs {
            return Some(Ordering::Less);
        } else if theirs < mine {
            return Some(Ordering::Greater);
        }
        if self.is_deleted() && !other.is_deleted() {
            Some(Ordering::Greater)
        } else {
            Some(Ordering::Less)
        }
    }
}

impl PartialOrdSpecImpl for EditRun {
    open spec fn obeys_partial_cmp_spec() -> bool {
        true
    }

    open spec fn partial_cmp_spec(&self, other: &EditRun) -> Option<Ordering> {
        run_order(self@, other@)
    }
}

/// Runs are comparable exactly when they were inserted at the same anchor.
pub proof fn lemma_order_defined_iff_same_anchor(a: RunModel, b: RunModel)
    ensures
        (run_order(a, b) is Some) == (a.inserted_at == b.inserted_at),
{
}

/// The order never calls two runs equal.
pub proof fn lemma_order_never_equal(a: RunModel, b: RunModel)
    ensures
        run_order(a, b) != Some(Ordering::Equal),
{
}

/// Of two runs at the same anchor, the one with the later Lamport timestamp
/// comes first, whatever their replicas.
pub proof fn lemma_later_lamport_first(a: RunModel, b: RunModel)
    requires
        a.inserted_at == b.inserted_at,
        a.lamport_ts > b.lamport_ts,
    ensures
        run_order(a, b) == Some(Ordering::Less),
        run_order(b, a) == Some(Ordering::Greater),
{
}

/// Of two runs at the same anchor with the same Lamport timestamp, the one
/// from the replica with the smaller id comes first.
pub proof fn lemma_equal_lamport_by_replica(a: RunModel, b: RunModel)
    requires
        a.inserted_at == b.inserted_at,
        a.lamport_ts == b.lamport_ts,
        a.inserted_by@ < b.inserted_by@,
    ensures
        run_order(a, b) == Some(Ordering::Less),
        run_order(b, a) == Some(Ordering::Greater),
{
}

/// Swapping two different runs reverses the order.
pub proof fn lemma_order_antisymmetric(a: RunModel, b: RunModel)
    requires
        a != b,
    ensures
        run_order(a, b) == Some(Ordering::Less) <==> run_order(b, a) == Some(Ordering::Greater),
{
    if a.inserted_at == b.inserted_at && a.lamport_ts == b.lamport_ts && a.inserted_by@
        == b.inserted_by@ && a.insertion_ts == b.insertion_ts && a.start == b.start && a.end
        == b.end && a.deleted == b.deleted {
        crate::replica::ReplicaId::lemma_view_injective(a.inserted_by, b.inserted_by);
        assert(a == b);
    }
}

/// The order is transitive.
pub proof fn lemma_order_transitive(a: RunModel, b: RunModel, c: RunModel)
    requires
        run_order(a, b) == Some(Ordering::Less),
        run_order(b, c) == Some(Ordering::Less),
    ensures
        run_order(a, c) == Some(Ordering::Less),
{
    crate::replica::ReplicaId::lemma_view_injective(a.inserted_by, b.inserted_by);
    crate::replica::ReplicaId::lemma_view_injective(b.inserted_by, c.inserted_by);
    crate::replica::ReplicaId::lemma_view_injective(a.inserted_by, c.inserted_by);
}

} // verus!
