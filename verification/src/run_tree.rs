//! Anchors, runs, and the tree of runs of one replica's copy of the document.

use vstd::prelude::*;

use crate::gtree::{
    count_empty, deleted_across, deleted_in_leaf, deleted_in_run, insert_slot,
    lemma_prefix_mono, lemma_prefix_step, lemma_visible_len_insert, lemma_visible_len_update,
    merges_into_next, merges_into_previous, opt_seq, prefix_len, start_slot, visible_len, Gtree,
    LeafIdx,
};
use crate::range::Range;
pub use crate::summary::Diff;
use crate::text::{
    all_chars, lemma_text_delete_across, lemma_text_delete_in_leaf, lemma_text_extend_run,
    lemma_text_insert_run, lemma_text_split_run, run_chars, text_chars, visible_chars,
    lemma_all_chars_extend_run, lemma_all_chars_insert_run, lemma_all_chars_split_run,
};
use crate::replica::{
    InsertionClock, InsertionTimestamp, LamportClock, LamportTimestamp, Length, ReplicaId,
};

verus! {

/// What an [`Anchor`] stands for: a replica and an offset in the text it inserted.
pub struct AnchorModel {
    pub replica_id: ReplicaId,
    pub offset: nat,
}

/// A position in the document, given by a character of one replica's text.
#[derive(Clone, Copy, Debug, PartialEq, Eq, Structural)]
pub struct Anchor {
    replica_id: ReplicaId,
    offset: Length,
}

impl View for Anchor {
    type V = AnchorModel;

    closed spec fn view(&self) -> AnchorModel {
        AnchorModel { replica_id: self.replica_id, offset: self.offset as nat }
    }
}

/// The model of the document's origin.
pub open spec fn origin_model() -> AnchorModel {
    AnchorModel { replica_id: ReplicaId::spec_zero(), offset: 0 }
}

impl Anchor {
    /// The anchor at `offset` in the text inserted by `replica_id`.
    pub fn new(replica_id: ReplicaId, offset: Length) -> (a: Anchor)
        ensures
            a@ == (AnchorModel { replica_id, offset: offset as nat }),
    {
        Anchor { replica_id, offset }
    }

    /// A special value used to create an anchor at the start of the document.
    pub fn origin() -> (a: Anchor)
        ensures
            a@ == origin_model(),
    {
        Anchor { replica_id: ReplicaId::zero(), offset: 0 }
    }

    /// The replica whose text the anchor points into.
    pub fn replica_id(&self) -> (id: ReplicaId)
        ensures
            id == self@.replica_id,
    {
        self.replica_id
    }

    /// The offset in that replica's text.
    pub fn offset(&self) -> (offset: Length)
        ensures
            offset == self@.offset,
    {
        self.offset
    }

    /// Two anchors are the same value exactly when their models are.
    pub proof fn lemma_view_injective(a: Anchor, b: Anchor)
        ensures
            (a@ == b@) <==> (a == b),
    {
        if a@ == b@ {
            assert(a.offset == b.offset);
        }
    }
}

/// What an [`EditRun`] stands for.
pub struct RunModel {
    pub inserted_at: AnchorModel,
    pub inserted_by: ReplicaId,
    pub start: nat,
    pub end: nat,
    pub insertion_ts: InsertionTimestamp,
    pub lamport_ts: LamportTimestamp,
    pub deleted: bool,
}

impl RunModel {
    /// The range of the run does not run backwards, and its offsets fit a `usize`.
    pub open spec fn wf(self) -> bool {
        self.start <= self.end <= usize::MAX
    }

    /// Number of characters in the run.
    pub open spec fn len(self) -> nat {
        (self.end - self.start) as nat
    }

    /// Number of characters the run contributes to the visible document.
    pub open spec fn summary(self) -> nat {
        if self.deleted {
            0
        } else {
            self.len()
        }
    }

    /// The same run over the range `start..end`.
    pub open spec fn with_range(self, start: nat, end: nat) -> RunModel {
        RunModel { start, end, ..self }
    }

    /// The same run, marked as deleted.
    pub open spec fn as_deleted(self) -> RunModel {
        RunModel { deleted: true, ..self }
    }

    /// The first `k` characters of the run.
    pub open spec fn head(self, k: nat) -> RunModel {
        self.with_range(self.start, self.start + k)
    }

    /// The run without its first `k` characters.
    pub open spec fn tail(self, k: nat) -> RunModel {
        self.with_range(self.start + k, self.end)
    }
}

/// A run of consecutive characters inserted by one replica in one insertion.
#[derive(Clone, Copy, Debug, PartialEq, Eq, Structural)]
pub struct EditRun {
    inserted_at: Anchor,
    inserted_by: ReplicaId,
    character_range: Range,
    insertion_ts: InsertionTimestamp,
    lamport_ts: LamportTimestamp,
    is_deleted: bool,
}

impl View for EditRun {
    type V = RunModel;

    closed spec fn view(&self) -> RunModel {
        RunModel {
            inserted_at: self.inserted_at@,
            inserted_by: self.inserted_by,
            start: self.character_range.start as nat,
            end: self.character_range.end as nat,
            insertion_ts: self.insertion_ts,
            lamport_ts: self.lamport_ts,
            deleted: self.is_deleted,
        }
    }
}

impl EditRun {
    /// Two runs are the same value exactly when their models are.
    pub proof fn lemma_view_injective(a: EditRun, b: EditRun)
        ensures
            (a@ == b@) <==> (a == b),
    {
        if a@ == b@ {
            Anchor::lemma_view_injective(a.inserted_at, b.inserted_at);
            assert(a.character_range == b.character_range);
        }
    }

    /// Offset just past the run's last character.
    pub fn end(&self) -> (e: Length)
        ensures
            e == self@.end,
    {
        self.range().end
    }

    fn end_mut(&mut self) -> (e: &mut Length)
        ensures
            *e == old(self)@.end,
            final(self)@ == old(self)@.with_range(old(self)@.start, *final(e) as nat),
    {
        &mut self.range_mut().end
    }

    /// Grows the run by `extend_by` characters at its end.
    pub fn extend(&mut self, extend_by: Length)
        requires
            old(self)@.end + extend_by <= usize::MAX,
        ensures
            final(self)@ == old(self)@.with_range(old(self)@.start, (old(self)@.end + extend_by) as nat),
    {
        self.character_range.end = self.character_range.end + extend_by;
    }

    /// Timestamp of the insertion that created the run.
    pub fn insertion_ts(&self) -> (ts: InsertionTimestamp)
        ensures
            ts == self@.insertion_ts,
    {
        self.insertion_ts
    }

    /// Timestamp of the run on the Lamport clock.
    pub fn lamport_ts(&self) -> (ts: LamportTimestamp)
        ensures
            ts == self@.lamport_ts,
    {
        self.lamport_ts
    }

    /// The anchor after which the run was inserted.
    pub fn inserted_at(&self) -> (a: Anchor)
        ensures
            a@ == self@.inserted_at,
    {
        self.inserted_at
    }

    /// Whether the run's characters have been deleted.
    pub fn is_deleted(&self) -> (b: bool)
        ensures
            b == self@.deleted,
    {
        self.is_deleted
    }

    /// Number of characters in the run.
    pub fn len(&self) -> (l: Length)
        requires
            self@.wf(),
        ensures
            l == self@.len(),
    {
        self.end() - self.start()
    }

    /// A run that has not been deleted.
    pub fn new(
        inserted_at: Anchor,
        inserted_by: ReplicaId,
        character_range: Range,
        insertion_ts: InsertionTimestamp,
        lamport_ts: LamportTimestamp,
    ) -> (run: EditRun)
        ensures
            run@ == (RunModel {
                inserted_at: inserted_at@,
                inserted_by,
                start: character_range.start as nat,
                end: character_range.end as nat,
                insertion_ts,
                lamport_ts,
                deleted: false,
            }),
    {
        EditRun { inserted_at, inserted_by, character_range, insertion_ts, lamport_ts, is_deleted: false }
    }

    fn range(&self) -> (r: &Range)
        ensures
            r.start == self@.start,
            r.end == self@.end,
    {
        &self.character_range
    }

    fn range_mut(&mut self) -> (r: &mut Range)
        ensures
            r.start == old(self)@.start,
            r.end == old(self)@.end,
            final(self)@ == old(self)@.with_range(final(r).start as nat, final(r).end as nat),
    {
        &mut self.character_range
    }

    /// The replica that inserted the run.
    pub fn replica_id(&self) -> (id: ReplicaId)
        ensures
            id == self@.inserted_by,
    {
        self.inserted_by
    }

    /// Splits the run at `at_offset`: the run keeps its first `at_offset`
    /// characters and the rest is returned, unless `at_offset` is at either
    /// end of the run, where nothing changes.
    pub fn split(&mut self, at_offset: Length) -> (rest: Option<EditRun>)
        requires
            old(self)@.wf(),
            old(self)@.start + at_offset <= usize::MAX,
        ensures
            (at_offset == old(self)@.len() || at_offset == 0) ==> rest is None && final(self)@
                == old(self)@,
            !(at_offset == old(self)@.len() || at_offset == 0) ==> rest is Some && final(self)@
                == old(self)@.head(at_offset as nat) && rest->0@ == old(self)@.tail(
                at_offset as nat,
            ),
    {
        if at_offset == self.len() || at_offset == 0 {
            None
        } else {
            let mut split = *self;
            split.character_range.start = split.character_range.start + at_offset;
            self.character_range.end = split.character_range.start;
            Some(split)
        }
    }

    /// Offset of the run's first character.
    pub fn start(&self) -> (s: Length)
        ensures
            s == self@.start,
    {
        self.range().start
    }

    fn start_mut(&mut self) -> (s: &mut Length)
        ensures
            *s == old(self)@.start,
            final(self)@ == old(self)@.with_range(*final(s) as nat, old(self)@.end),
    {
        &mut self.range_mut().start
    }
}


impl EditRun {
    /// Deletes the run from `offset` on. When that leaves a part of the run
    /// visible, the run keeps that part and the deleted part is returned.
    pub(crate) fn delete_from(&mut self, offset: Length) -> (deleted: Option<EditRun>)
        requires
            old(self)@.wf(),
        ensures
            offset == 0 ==> deleted is None && final(self)@ == old(self)@.as_deleted(),
            0 < offset < old(self)@.len() ==> deleted is Some && final(self)@ == old(self)@.head(
                offset as nat,
            ) && deleted->0@ == old(self)@.tail(offset as nat).as_deleted(),
            offset > 0 && offset >= old(self)@.len() ==> deleted is None && final(self)@ == old(self)@,
    {
        if offset == 0 {
            self.is_deleted = true;
            None
        } else if offset < self.len() {
            let mut del = match self.split(offset) {
                Some(del) => del,
                None => { return None; },
            };
            del.is_deleted = true;
            Some(del)
        } else {
            None
        }
    }

    /// Deletes the characters of the run in `range`, which is relative to
    /// the run's start. Returns the runs that follow the run afterwards, in
    /// order: the deleted middle and the visible rest, where a middle part was
    /// deleted; otherwise whatever `delete_up_to` or `delete_from` returns.
    pub(crate) fn delete_range(&mut self, range: Range) -> (parts: (Option<EditRun>, Option<EditRun>))
        requires
            old(self)@.wf(),
            range.start <= range.end,
        ensures
            range.start == range.end ==> parts.0 is None && parts.1 is None && final(self)@ == old(self)@,
            range.start < range.end && range.start == 0 ==> parts.1 is None && (if range.end
                < old(self)@.len() {
                parts.0 is Some && final(self)@ == old(self)@.head(range.end as nat).as_deleted()
                    && parts.0->0@ == old(self)@.tail(range.end as nat)
            } else {
                parts.0 is None && final(self)@ == old(self)@.as_deleted()
            }),
            range.start < range.end && range.start > 0 && range.end >= old(self)@.len()
                ==> parts.1 is None && (if range.start < old(self)@.len() {
                parts.0 is Some && final(self)@ == old(self)@.head(range.start as nat)
                    && parts.0->0@ == old(self)@.tail(range.start as nat).as_deleted()
            } else {
                parts.0 is None && final(self)@ == old(self)@
            }),
            range.start < range.end && range.start > 0 && range.end < old(self)@.len() ==> parts.0 is Some
                && parts.1 is Some && final(self)@ == old(self)@.head(range.start as nat)
                && parts.0->0@ == old(self)@.tail(range.start as nat).head(
                (range.end - range.start) as nat,
            ).as_deleted() && parts.1->0@ == old(self)@.tail(range.end as nat),
    {
        let start = range.start;
        let end = range.end;
        if start == end {
            (None, None)
        } else if start == 0 {
            (self.delete_up_to(end), None)
        } else if end >= self.len() {
            (self.delete_from(start), None)
        } else {
            let rest = self.split(end);
            let deleted = match self.split(start) {
                Some(d) => {
                    let mut d = d;
                    d.is_deleted = true;
                    Some(d)
                },
                None => None,
            };
            (deleted, rest)
        }
    }

    /// Deletes the run's first `offset` characters. When that leaves a part of
    /// the run visible, the run keeps the deleted part and the rest is returned.
    pub(crate) fn delete_up_to(&mut self, offset: Length) -> (rest: Option<EditRun>)
        requires
            old(self)@.wf(),
        ensures
            offset == 0 ==> rest is None && final(self)@ == old(self)@,
            0 < offset < old(self)@.len() ==> rest is Some && final(self)@ == old(self)@.head(
                offset as nat,
            ).as_deleted() && rest->0@ == old(self)@.tail(offset as nat),
            offset > 0 && offset >= old(self)@.len() ==> rest is None && final(self)@ == old(self)@.as_deleted(),
    {
        if offset == 0 {
            None
        } else if offset < self.len() {
            let rest = self.split(offset);
            self.is_deleted = true;
            rest
        } else {
            self.is_deleted = true;
            None
        }
    }

    /// Number of characters the run contributes to the visible document.
    pub fn summarize(&self) -> (n: Length)
        requires
            self@.wf(),
        ensures
            n == self@.summary(),
    {
        if self.is_deleted {
            0
        } else {
            self.len()
        }
    }

    /// Marks the whole run as deleted.
    pub fn delete(&mut self)
        ensures
            final(self)@ == old(self)@.as_deleted(),
    {
        self.is_deleted = true;
    }

    /// Joins `other` onto the end of the run when it continues the run: same
    /// deletion state, same replica, and `other` starts where the run ends.
    /// Otherwise `other` is handed back.
    pub fn append(&mut self, other: EditRun) -> (refused: Option<EditRun>)
        ensures
            can_append(old(self)@, other@) ==> refused is None && final(self)@ == old(self)@.with_range(old(self)@.start, other@.end),
            !can_append(old(self)@, other@) ==> refused == Some(other) && final(self)@ == old(self)@,
    {
        if self.is_deleted == other.is_deleted && self.replica_id() == other.replica_id()
            && self.end() == other.start() {
            *self.end_mut() = other.end();
            None
        } else {
            Some(other)
        }
    }

    /// Joins `other` onto the start of the run when the run continues it:
    /// same deletion state, same replica, and `other` ends where the run starts.
    /// Otherwise `other` is handed back.
    pub fn prepend(&mut self, other: EditRun) -> (refused: Option<EditRun>)
        requires
            can_append(other@, old(self)@) ==> other@.insertion_ts == old(self)@.insertion_ts,
        ensures
            can_append(other@, old(self)@) ==> refused is None && final(self)@ == old(self)@.with_range(other@.start, old(self)@.end),
            !can_append(other@, old(self)@) ==> refused == Some(other) && final(self)@ == old(self)@,
    {
        if self.is_deleted == other.is_deleted && self.replica_id() == other.replica_id()
            && other.end() == self.start() {
            *self.start_mut() = other.start();
            None
        } else {
            Some(other)
        }
    }
}

/// Splitting a run in two and joining the parts again, either way round,
/// gives the run back.
pub proof fn lemma_split_then_join(r: RunModel, k: nat)
    requires
        r.wf(),
        0 < k < r.len(),
    ensures
        can_append(r.head(k), r.tail(k)),
        r.head(k).insertion_ts == r.tail(k).insertion_ts,
        r.head(k).with_range(r.head(k).start, r.tail(k).end) == r,
        r.tail(k).with_range(r.head(k).start, r.tail(k).end) == r,
{
}

/// Every piece an edit leaves of a run, and the run it keeps, come from the
/// same replica and insertion and sit at the same anchor; the piece kept in
/// place keeps the run's start.
pub proof fn lemma_pieces_keep_origin(r: RunModel, k: nat, start: nat, end: nat)
    ensures
        r.head(k).start == r.start,
        r.with_range(r.start, end).start == r.start,
        forall|p: RunModel|
            p == r.head(k) || p == r.tail(k) || p == r.with_range(start, end) || p == r.as_deleted()
                || p == r.head(k).as_deleted() || p == r.tail(k).as_deleted() ==> {
                &&& p.inserted_by == r.inserted_by
                &&& p.insertion_ts == r.insertion_ts
                &&& p.lamport_ts == r.lamport_ts
                &&& p.inserted_at == r.inserted_at
            },
{
}

/// Whether `second` continues `first`: same deletion state, same replica, and
/// `second` starts where `first` ends.
pub open spec fn can_append(first: RunModel, second: RunModel) -> bool {
    &&& first.deleted == second.deleted
    &&& first.inserted_by == second.inserted_by
    &&& first.end == second.start
}

/// The runs of a replica's copy of the document, in document order.
#[derive(Clone, Debug)]
pub struct RunTree {
    gtree: Gtree,
    this_id: ReplicaId,
}

/// What an insertion did to the runs.
#[derive(Debug, PartialEq, Eq, Structural)]
pub enum InsertionOutcome {
    /// The run before the insertion point grew by the inserted text.
    ExtendedLastRun,
    /// A new run was put in after an existing one.
    InsertedRun { inserted_idx: LeafIdx },
    /// An existing run was split in two and the new run was put in between.
    SplitRun {
        split_id: ReplicaId,
        split_insertion: InsertionTimestamp,
        split_at_offset: Length,
        split_idx: LeafIdx,
        inserted_idx: LeafIdx,
    },
}

/// What a deletion did to the runs.
#[derive(Debug, PartialEq, Eq)]
pub enum DeletionOutcome {
    /// The deletion spanned several runs; the runs split at either end.
    DeletedAcrossRuns {
        split_start: Option<(ReplicaId, InsertionTimestamp, Length, LeafIdx)>,
        split_end: Option<(ReplicaId, InsertionTimestamp, Length, LeafIdx)>,
    },
    /// A middle part of one run was deleted: the run became three.
    DeletedInMiddleOfSingleRun {
        replica_id: ReplicaId,
        insertion_ts: InsertionTimestamp,
        range: Range,
        idx_of_deleted: LeafIdx,
        idx_of_split: LeafIdx,
    },
    /// A head or tail of one run was deleted: the run became two, split at `offset`.
    DeletionSplitSingleRun {
        replica_id: ReplicaId,
        insertion_ts: InsertionTimestamp,
        offset: Length,
        idx: LeafIdx,
    },
    /// The deleted head of one run joined the deleted run before it; the run
    /// now starts at `offset`.
    DeletionMergedInPreviousRun {
        replica_id: ReplicaId,
        insertion_ts: InsertionTimestamp,
        offset: Length,
        deleted: Length,
    },
    /// The deleted tail of one run, starting at `offset`, joined the deleted
    /// run after it.
    DeletionMergedInNextRun {
        replica_id: ReplicaId,
        insertion_ts: InsertionTimestamp,
        offset: Length,
        deleted: Length,
    },
    /// A whole run was deleted.
    DeletedWholeRun,
}

/// The run that an insertion creates.
pub open spec fn fresh_run(
    inserted_at: AnchorModel,
    inserted_by: ReplicaId,
    character_ts: nat,
    run_len: nat,
    insertion_ts: InsertionTimestamp,
    lamport_ts: LamportTimestamp,
) -> RunModel {
    RunModel {
        inserted_at,
        inserted_by,
        start: character_ts,
        end: character_ts + run_len,
        insertion_ts,
        lamport_ts,
        deleted: false,
    }
}

/// Inserting `k` characters into the run `r` just grows `r`: the insertion
/// is at its end, by the replica that made it, and continues its text.
pub open spec fn extends_in_place(r: RunModel, k: nat, this_id: ReplicaId, character_ts: nat) -> bool {
    &&& k == r.len()
    &&& r.inserted_by == this_id
    &&& r.end == character_ts
}

impl RunTree {
    /// The runs in document order.
    pub closed spec fn runs(&self) -> Seq<RunModel> {
        self.gtree.runs()
    }

    /// The handles of the runs, in document order.
    pub closed spec fn ids(&self) -> Seq<LeafIdx> {
        self.gtree.ids()
    }

    /// The replica that owns this copy of the document.
    pub closed spec fn owner(&self) -> ReplicaId {
        self.this_id
    }

    pub closed spec fn tree_wf(&self) -> bool {
        self.gtree.wf()
    }

    /// Well-formedness: at least one run, one handle per run, no handle
    /// twice, and no run whose range runs backwards.
    pub open spec fn wf(&self) -> bool {
        &&& self.tree_wf()
        &&& self.runs().len() > 0
        &&& self.ids().len() == self.runs().len()
        &&& self.ids().no_duplicates()
        &&& forall|p: int| 0 <= p < self.runs().len() ==> (#[trigger] self.runs()[p]).wf()
    }

    /// The tree's invariants, which every caller has established.
    pub fn assert_invariants(&self)
        requires
            self.wf(),
    {
    }

    /// Counts the runs that add nothing to the visible document, and all runs.
    pub fn count_empty_leaves(&self) -> (counts: (usize, usize))
        requires
            self.wf(),
        ensures
            counts.0 == count_empty(self.runs()),
            counts.1 == self.runs().len(),
            counts.0 <= counts.1,
            counts.1 >= 1,
    {
        self.gtree.count_empty_leaves()
    }

    /// The run that `run_idx` names.
    pub fn get_run(&self, run_idx: LeafIdx) -> (run: &EditRun)
        requires
            self.wf(),
            self.ids().contains(run_idx),
        ensures
            forall|p: int|
                0 <= p < self.ids().len() && self.ids()[p] == run_idx ==> run@ == self.runs()[p],
    {
        self.gtree.get_leaf(run_idx)
    }

    /// Visible length of the document.
    pub fn len(&self) -> (n: Length)
        requires
            self.wf(),
        ensures
            n == visible_len(self.runs()),
    {
        self.gtree.summary()
    }

    /// A tree holding `first_run`, owned by the replica `this_id`.
    pub fn new(this_id: ReplicaId, first_run: EditRun) -> (res: (RunTree, LeafIdx))
        requires
            first_run@.wf(),
        ensures
            res.0.wf(),
            res.0.owner() == this_id,
            res.0.runs() == seq![first_run@],
            res.0.ids() == seq![res.1],
    {
        let (gtree, idx) = Gtree::new(first_run);
        (RunTree { this_id, gtree }, idx)
    }
}

/// The handle of the run that an insertion created, if it created one.
pub open spec fn created_run(outcome: InsertionOutcome) -> Option<LeafIdx> {
    match outcome {
        InsertionOutcome::ExtendedLastRun => None,
        InsertionOutcome::InsertedRun { inserted_idx } => Some(inserted_idx),
        InsertionOutcome::SplitRun { inserted_idx, .. } => Some(inserted_idx),
    }
}

/// In sequences of handles without repeats, paired with runs, the handle at
/// `q` names the run at `q` and no other.
pub proof fn lemma_handle_names_one_run(
    ids: Seq<LeafIdx>,
    runs: Seq<RunModel>,
    q: int,
)
    requires
        ids.no_duplicates(),
        ids.len() == runs.len(),
        0 <= q < ids.len(),
    ensures
        forall|p: int| 0 <= p < ids.len() && ids[p] == ids[q] ==> runs[p] == runs[q],
{
    assert forall|p: int| 0 <= p < ids.len() && ids[p] == ids[q] implies runs[p] == runs[q] by {
        if p != q {
            assert(ids[p] != ids[q]);
        }
    }
}

/// Whether inserting this replica's text starting at its character
/// `character_ts` at the visible offset `offset` makes a new run, rather than
/// growing the run that ends there.
pub open spec fn makes_new_run(
    runs: Seq<RunModel>,
    this_id: ReplicaId,
    offset: int,
    character_ts: nat,
) -> bool {
    offset == 0 || {
        let i = insert_slot(runs, offset);
        !extends_in_place(runs[i], (offset - prefix_len(runs, i)) as nat, this_id, character_ts)
    }
}

/// Where, among all characters of `runs`, deleted ones included, an insertion
/// at the visible offset `offset` puts its text: at the start for offset zero,
/// else right after the character at `offset - 1`.
pub open spec fn new_text_position(runs: Seq<RunModel>, offset: int) -> int {
    if offset == 0 {
        0
    } else {
        let i = insert_slot(runs, offset);
        all_chars(runs.take(i)).len() + (offset - prefix_len(runs, i))
    }
}

impl RunTree {
    /// Inserts `run_len` characters of this replica's text, starting at its
    /// character `character_ts`, at the visible offset `offset`.
    ///
    /// At offset zero a new run is put before all others, anchored at the
    /// origin. Elsewhere the run that ends at, or holds, `offset` is found; when
    /// the insertion is at its end and continues its text by this replica it
    /// just grows. Otherwise it is split at `offset` (unless that is its end),
    /// and a new run anchored at the found run's end is put right after its
    /// first part. Only a new run takes a timestamp from each clock.
    pub fn insert(
        &mut self,
        offset: Length,
        run_len: Length,
        character_ts: Length,
        insertion_clock: &mut InsertionClock,
        lamport_clock: &mut LamportClock,
    ) -> (res: (Anchor, InsertionOutcome))
        requires
            old(self).wf(),
            run_len > 0,
            offset <= visible_len(old(self).runs()),
            character_ts + run_len <= usize::MAX,
            visible_len(old(self).runs()) + run_len <= usize::MAX,
            old(self).runs().len() + 2 <= usize::MAX,
            makes_new_run(old(self).runs(), old(self).owner(), offset as int, character_ts as nat)
                ==> old(insertion_clock)@ < u64::MAX && old(lamport_clock)@ < u64::MAX,
        ensures
            final(self).wf(),
            final(self).owner() == old(self).owner(),
            visible_len(final(self).runs()) == visible_len(old(self).runs()) + run_len,
            visible_chars(final(self).runs()) == visible_chars(old(self).runs()).take(offset as int)
                + text_chars(old(self).owner(), character_ts as nat, run_len as nat) + visible_chars(
                old(self).runs(),
            ).skip(offset as int),
            all_chars(final(self).runs()) == all_chars(old(self).runs()).take(
                new_text_position(old(self).runs(), offset as int),
            ) + text_chars(old(self).owner(), character_ts as nat, run_len as nat) + all_chars(
                old(self).runs(),
            ).skip(new_text_position(old(self).runs(), offset as int)),
            forall|idx: LeafIdx| old(self).ids().contains(idx) ==> final(self).ids().contains(idx),
            created_run(res.1) is Some ==> forall|p: int|
                0 <= p < final(self).ids().len() && final(self).ids()[p] == created_run(res.1)->0
                    ==> {
                    let c = #[trigger] final(self).runs()[p];
                    &&& c.insertion_ts == old(insertion_clock)@
                    &&& c.lamport_ts == old(lamport_clock)@
                    &&& c.inserted_by == old(self).owner()
                    &&& c.inserted_at == res.0@
                    &&& c.start == character_ts
                    &&& c.end == character_ts + run_len
                    &&& !c.deleted
                },
            res.1 matches InsertionOutcome::SplitRun {
                split_id,
                split_insertion,
                split_at_offset,
                split_idx,
                ..
            } ==> split_id == res.0@.replica_id && forall|p: int|
                0 <= p < final(self).ids().len() && #[trigger] final(self).ids()[p] == split_idx ==> {
                    let c = final(self).runs()[p];
                    &&& c.start == split_at_offset
                    &&& c.inserted_by == split_id
                    &&& c.insertion_ts == split_insertion
                    &&& !c.deleted
                },
            created_run(res.1) is Some ==> final(insertion_clock)@ == old(insertion_clock)@ + 1
                && final(lamport_clock)@ == old(lamport_clock)@ + 1,
            created_run(res.1) is None ==> final(insertion_clock)@ == old(insertion_clock)@
                && final(lamport_clock)@ == old(lamport_clock)@,
            ({
                let runs = old(self).runs();
                let ids = old(self).ids();
                let this_id = old(self).owner();
                let ins_ts = old(insertion_clock)@;
                let lam_ts = old(lamport_clock)@;
                let ticked = final(insertion_clock)@ == ins_ts + 1 && final(lamport_clock)@ == lam_ts + 1;
                if offset == 0 {
                    &&& ticked
                    &&& res.0@ == origin_model()
                    &&& res.1 matches InsertionOutcome::InsertedRun { inserted_idx }
                    &&& !ids.contains(inserted_idx)
                    &&& final(self).ids() == seq![inserted_idx] + ids
                    &&& final(self).runs() == seq![
                        fresh_run(origin_model(), this_id, character_ts as nat, run_len as nat, ins_ts, lam_ts),
                    ] + runs
                } else {
                    let i = insert_slot(runs, offset as int);
                    let r = runs[i];
                    let k = (offset - prefix_len(runs, i)) as nat;
                    let anchor = AnchorModel { replica_id: r.inserted_by, offset: r.end };
                    let new_run = fresh_run(anchor, this_id, character_ts as nat, run_len as nat, ins_ts, lam_ts);
                    &&& res.0@ == anchor
                    &&& extends_in_place(r, k, this_id, character_ts as nat) ==> {
                        &&& final(insertion_clock)@ == ins_ts
                        &&& final(lamport_clock)@ == lam_ts
                        &&& res.1 == InsertionOutcome::ExtendedLastRun
                        &&& final(self).ids() == ids
                        &&& final(self).runs() == runs.update(i, r.with_range(r.start, (r.end + run_len) as nat))
                    }
                    &&& (!extends_in_place(r, k, this_id, character_ts as nat) && k == r.len()) ==> {
                        &&& ticked
                        &&& res.1 matches InsertionOutcome::InsertedRun { inserted_idx }
                        &&& !ids.contains(inserted_idx)
                        &&& final(self).ids() == ids.insert(i + 1, inserted_idx)
                        &&& final(self).runs() == runs.insert(i + 1, new_run)
                    }
                    &&& k < r.len() ==> {
                        &&& ticked
                        &&& res.1 matches InsertionOutcome::SplitRun {
                            split_id,
                            split_insertion,
                            split_at_offset,
                            split_idx,
                            inserted_idx,
                        }
                        &&& split_id == r.inserted_by
                        &&& split_insertion == r.insertion_ts
                        &&& split_at_offset == r.start + k
                        &&& !ids.contains(inserted_idx)
                        &&& !ids.contains(split_idx)
                        &&& inserted_idx != split_idx
                        &&& final(self).ids() == ids.take(i + 1) + seq![inserted_idx, split_idx]
                            + ids.skip(i + 1)
                        &&& final(self).runs() == runs.take(i) + seq![r.head(k), new_run, r.tail(k)]
                            + runs.skip(i + 1)
                    }
                }
            }),
    {
        let ghost runs = self.runs();
        let ghost ids = self.ids();
        if offset == 0 {
            let run = EditRun::new(
                Anchor::origin(),
                self.this_id,
                Range::new(character_ts, character_ts + run_len),
                insertion_clock.next(),
                lamport_clock.next(),
            );
            let inserted_idx = self.gtree.prepend(run);
            proof {
                lemma_visible_len_insert(runs, 0, run@);
                assert(self.runs() =~= runs.insert(0, run@));
                lemma_text_insert_run(runs, 0, run@);
                lemma_all_chars_insert_run(runs, 0, run@);
                assert(runs.take(0) =~= Seq::<RunModel>::empty());
                assert(all_chars(runs.take(0)).len() == 0);
                assert(run_chars(run@) =~= text_chars(self.this_id, character_ts as nat, run_len as nat));
                assert forall|idx: LeafIdx| ids.contains(idx) implies self.ids().contains(idx) by {
                    let q = choose|q: int| 0 <= q < ids.len() && ids[q] == idx;
                    assert(self.ids()[q + 1] == idx);
                }
                assert(self.ids()[0] == inserted_idx);
                lemma_handle_names_one_run(self.ids(), self.runs(), 0);
            }
            return (Anchor::origin(), InsertionOutcome::InsertedRun { inserted_idx });
        }
        let (p, k) = self.gtree.locate_insert(offset);
        let mut run = *self.gtree.leaf_at(p);
        let ghost r = run@;
        proof {
            lemma_prefix_step(runs, p as int);
        }
        let split_id = run.replica_id();
        let split_insertion = run.insertion_ts();
        let split_at_offset = run.start() + k;
        let anchor = Anchor::new(run.replica_id(), run.end());
        if run.len() == k && run.replica_id() == self.this_id && run.end() == character_ts {
            run.extend(run_len);
            proof {
                lemma_visible_len_update(runs, p as int, run@);
            }
            self.gtree.set_leaf_at(p, run);
            proof {
                lemma_text_extend_run(runs, p as int, run_len as nat);
                lemma_all_chars_extend_run(runs, p as int, run_len as nat);
            }
            return (anchor, InsertionOutcome::ExtendedLastRun);
        }
        let split = run.split(k);
        let new_run = EditRun::new(
            anchor,
            self.this_id,
            Range::new(character_ts, character_ts + run_len),
            insertion_clock.next(),
            lamport_clock.next(),
        );
        match split {
            Some(rest) => {
                proof {
                    lemma_visible_len_update(runs, p as int, run@);
                }
                self.gtree.set_leaf_at(p, run);
                proof {
                    lemma_visible_len_insert(self.runs(), p as int + 1, new_run@);
                }
                let inserted_idx = self.gtree.insert_leaf_at(p + 1, new_run);
                proof {
                    lemma_visible_len_insert(self.runs(), p as int + 2, rest@);
                }
                let split_idx = self.gtree.insert_leaf_at(p + 2, rest);
                proof {
                    assert(self.runs() =~= runs.take(p as int) + seq![run@, new_run@, rest@] + runs.skip(
                        p + 1,
                    ));
                    assert(self.ids() =~= ids.take(p + 1) + seq![inserted_idx, split_idx] + ids.skip(
                        p + 1,
                    ));
                    crate::gtree::lemma_fresh_after_insert(ids, p as int + 1, inserted_idx, split_idx);
                    lemma_text_split_run(runs, p as int, k as nat, new_run@);
                    lemma_all_chars_split_run(runs, p as int, k as nat, new_run@);
                    assert(run_chars(new_run@) =~= text_chars(self.this_id, character_ts as nat, run_len as nat));
                    assert forall|idx: LeafIdx| ids.contains(idx) implies self.ids().contains(idx) by {
                        let q = choose|q: int| 0 <= q < ids.len() && ids[q] == idx;
                        if q <= p {
                            assert(self.ids()[q] == idx);
                        } else {
                            assert(self.ids()[q + 2] == idx);
                        }
                    }
                    assert(self.ids()[p + 1] == inserted_idx);
                    lemma_handle_names_one_run(self.ids(), self.runs(), p + 1);
                    assert(self.ids()[p + 2] == split_idx);
                    lemma_handle_names_one_run(self.ids(), self.runs(), p + 2);
                }
                (
                    anchor,
                    InsertionOutcome::SplitRun {
                        split_id,
                        split_insertion,
                        split_at_offset,
                        split_idx,
                        inserted_idx,
                    },
                )
            },
            None => {
                proof {
                    lemma_visible_len_insert(runs, p as int + 1, new_run@);
                }
                let inserted_idx = self.gtree.insert_leaf_at(p + 1, new_run);
                proof {
                    lemma_text_insert_run(runs, p as int + 1, new_run@);
                    lemma_all_chars_insert_run(runs, p as int + 1, new_run@);
                    assert(runs.take(p as int + 1).drop_last() =~= runs.take(p as int));
                    assert(run_chars(new_run@) =~= text_chars(self.this_id, character_ts as nat, run_len as nat));
                    assert forall|idx: LeafIdx| ids.contains(idx) implies self.ids().contains(idx) by {
                        let q = choose|q: int| 0 <= q < ids.len() && ids[q] == idx;
                        if q <= p {
                            assert(self.ids()[q] == idx);
                        } else {
                            assert(self.ids()[q + 1] == idx);
                        }
                    }
                    assert(self.ids()[p + 1] == inserted_idx);
                    lemma_handle_names_one_run(self.ids(), self.runs(), p + 1);
                }
                (anchor, InsertionOutcome::InsertedRun { inserted_idx })
            },
        }
    }
}

/// What a deletion inside the single visible run `r`, of its characters
/// `a..b`, reports, given whether the deleted part joined a neighbour and the
/// handles of the runs it added.
pub open spec fn single_run_outcome(
    runs: Seq<RunModel>,
    i: int,
    a: nat,
    b: nat,
    outcome: DeletionOutcome,
    ids_before: Seq<LeafIdx>,
    ids_after: Seq<LeafIdx>,
) -> bool {
    let r = runs[i];
    if a == 0 && b == r.len() {
        outcome == DeletionOutcome::DeletedWholeRun && ids_after == ids_before
    } else if a > 0 && b < r.len() {
        &&& outcome matches DeletionOutcome::DeletedInMiddleOfSingleRun {
            replica_id,
            insertion_ts,
            range,
            idx_of_deleted,
            idx_of_split,
        }
        &&& replica_id == r.inserted_by
        &&& insertion_ts == r.insertion_ts
        &&& range.start == r.start + a
        &&& range.end == r.start + b
        &&& !ids_before.contains(idx_of_deleted)
        &&& !ids_before.contains(idx_of_split)
        &&& idx_of_deleted != idx_of_split
        &&& ids_after == ids_before.take(i + 1) + seq![idx_of_deleted, idx_of_split]
            + ids_before.skip(i + 1)
    } else if merges_into_previous(runs, i, a, b) {
        &&& outcome matches DeletionOutcome::DeletionMergedInPreviousRun {
            replica_id,
            insertion_ts,
            offset,
            deleted,
        }
        &&& replica_id == r.inserted_by
        &&& insertion_ts == r.insertion_ts
        &&& offset == r.start + b
        &&& deleted == b
        &&& ids_after == ids_before
    } else if merges_into_next(runs, i, a, b) {
        &&& outcome matches DeletionOutcome::DeletionMergedInNextRun {
            replica_id,
            insertion_ts,
            offset,
            deleted,
        }
        &&& replica_id == r.inserted_by
        &&& insertion_ts == r.insertion_ts
        &&& offset == r.start + a
        &&& deleted == b - a
        &&& ids_after == ids_before
    } else {
        &&& outcome matches DeletionOutcome::DeletionSplitSingleRun {
            replica_id,
            insertion_ts,
            offset,
            idx,
        }
        &&& replica_id == r.inserted_by
        &&& insertion_ts == r.insertion_ts
        &&& offset == r.start + if a == 0 {
            b
        } else {
            a
        }
        &&& !ids_before.contains(idx)
        &&& ids_after == ids_before.insert(i + 1, idx)
    }
}

/// What a split at the end of a deletion across runs reports: the split run
/// `r`, its offset, and the handle of the run added.
pub open spec fn split_report(
    split: Option<(ReplicaId, InsertionTimestamp, Length, LeafIdx)>,
    r: RunModel,
    at: nat,
    idx: Option<LeafIdx>,
) -> bool {
    match (split, idx) {
        (Some(s), Some(i)) => s.0 == r.inserted_by && s.1 == r.insertion_ts && s.2 == r.start + at
            && s.3 == i,
        (None, None) => true,
        _ => false,
    }
}

/// The runs that a deletion inside one run reports by handle are what the
/// report says: the deleted middle spans the reported range and the visible
/// rest starts where it ends; a run added by a split starts at the reported
/// offset, which is the deletion's start when the added run is deleted and its
/// end when it is the visible rest.
pub proof fn lemma_single_run_handles(
    runs: Seq<RunModel>,
    ids: Seq<LeafIdx>,
    i: int,
    a: nat,
    b: nat,
    outcome: DeletionOutcome,
    runs2: Seq<RunModel>,
    ids2: Seq<LeafIdx>,
)
    requires
        0 <= i < runs.len(),
        ids.len() == runs.len(),
        runs[i].wf(),
        !runs[i].deleted,
        a < b <= runs[i].len(),
        runs2 == deleted_in_leaf(runs, i, a, b),
        single_run_outcome(runs, i, a, b, outcome, ids, ids2),
        ids2.no_duplicates(),
        ids2.len() == runs2.len(),
    ensures
        outcome matches DeletionOutcome::DeletedInMiddleOfSingleRun {
            replica_id,
            insertion_ts,
            range: deleted,
            idx_of_deleted,
            idx_of_split,
        } ==> forall|p: int|
            0 <= p < ids2.len() ==> (#[trigger] ids2[p] == idx_of_deleted ==> runs2[p].deleted
                && runs2[p].start == deleted.start && runs2[p].end == deleted.end
                && runs2[p].inserted_by == replica_id && runs2[p].insertion_ts == insertion_ts) && (
            ids2[p] == idx_of_split ==> !runs2[p].deleted && runs2[p].start == deleted.end),
        outcome matches DeletionOutcome::DeletionSplitSingleRun { replica_id, insertion_ts, offset, idx } ==> forall|p: int|
            0 <= p < ids2.len() && #[trigger] ids2[p] == idx ==> runs2[p].inserted_by == replica_id
                && runs2[p].insertion_ts == insertion_ts && runs2[p].start == offset && (
            runs2[p].deleted ==> offset == runs[i].start + a) && (!runs2[p].deleted ==> offset
                == runs[i].start + b),
{
    let r = runs[i];
    if a > 0 && b < r.len() {
        assert(runs2 =~= runs.take(i) + deleted_in_run(r, a, b) + runs.skip(i + 1));
        assert(runs2[i + 1] == deleted_in_run(r, a, b)[1]);
        assert(runs2[i + 2] == deleted_in_run(r, a, b)[2]);
        lemma_handle_names_one_run(ids2, runs2, i + 1);
        lemma_handle_names_one_run(ids2, runs2, i + 2);
    } else if !(a == 0 && b == r.len()) && !merges_into_previous(runs, i, a, b)
        && !merges_into_next(runs, i, a, b) {
        assert(runs2 =~= runs.take(i) + deleted_in_run(r, a, b) + runs.skip(i + 1));
        assert(runs2[i + 1] == deleted_in_run(r, a, b)[1]);
        assert(ids2[i + 1] == ids2[i + 1]);
        lemma_handle_names_one_run(ids2, runs2, i + 1);
    }
}

/// The runs that a deletion across runs reports by handle are what the
/// report says: the deleted part split off the first run starts at the
/// reported start, and the visible rest split off the last run starts at the
/// reported end.
pub proof fn lemma_across_handles(
    runs: Seq<RunModel>,
    ids: Seq<LeafIdx>,
    i: int,
    a: nat,
    j: int,
    b: nat,
    first: Option<LeafIdx>,
    second: Option<LeafIdx>,
    runs2: Seq<RunModel>,
    ids2: Seq<LeafIdx>,
)
    requires
        0 <= i < j < runs.len(),
        ids.len() == runs.len(),
        a < runs[i].len(),
        0 < b <= runs[j].len(),
        !runs[j].deleted,
        (first is Some) == (a > 0),
        (second is Some) == (b < runs[j].len()),
        runs2 == deleted_across(runs, i, a, j, b),
        ids2 == ids.take(i + 1) + opt_seq(first) + ids.subrange(i + 1, j + 1) + opt_seq(second)
            + ids.skip(j + 1),
        ids2.no_duplicates(),
        ids2.len() == runs2.len(),
    ensures
        first is Some ==> forall|p: int|
            0 <= p < ids2.len() && #[trigger] ids2[p] == first->0 ==> runs2[p].deleted
                && runs2[p].start == runs[i].start + a && runs2[p].inserted_by == runs[i].inserted_by
                && runs2[p].insertion_ts == runs[i].insertion_ts,
        second is Some ==> forall|p: int|
            0 <= p < ids2.len() && #[trigger] ids2[p] == second->0 ==> !runs2[p].deleted
                && runs2[p].start == runs[j].start + b && runs2[p].inserted_by == runs[j].inserted_by
                && runs2[p].insertion_ts == runs[j].insertion_ts,
{
    let f = crate::gtree::deleted_from(runs[i], a);
    let d = crate::gtree::all_deleted(runs.subrange(i + 1, j));
    let u = crate::gtree::deleted_up_to(runs[j], b);
    let o1 = opt_seq(first);
    assert(runs2 == runs.take(i) + f + d + u + runs.skip(j + 1));
    if first is Some {
        assert(ids2[i + 1] == first->0);
        assert(runs2[i + 1] == f[1]);
        assert(f[1] == runs[i].tail(a).as_deleted());
        lemma_handle_names_one_run(ids2, runs2, i + 1);
    }
    if second is Some {
        let q = j + 1 + o1.len();
        assert(ids2[q] == second->0);
        assert(runs2[q] == u[1]);
        assert(u[1] == runs[j].tail(b));
        lemma_handle_names_one_run(ids2, runs2, q);
    }
}

impl RunTree {
    /// Deletes the visible characters `range`.
    ///
    /// The run holding the first character and the run holding the last one
    /// are found. When they are the same run, its characters in the range are
    /// marked deleted, splitting it where needed; a deleted head or tail joins
    /// a deleted neighbour that it continues. Otherwise the first run is
    /// deleted from the range's start on, the last one up to the range's end,
    /// and every run between is marked deleted. Returns the anchors of the
    /// range's start and end, and what was done.
    pub fn delete(&mut self, range: Range) -> (res: (Anchor, Anchor, DeletionOutcome))
        requires
            old(self).wf(),
            range.start < range.end <= visible_len(old(self).runs()),
            old(self).runs().len() + 2 <= usize::MAX,
        ensures
            final(self).wf(),
            final(self).owner() == old(self).owner(),
            visible_len(final(self).runs()) == visible_len(old(self).runs()) - (range.end
                - range.start),
            visible_chars(final(self).runs()) == visible_chars(old(self).runs()).take(
                range.start as int,
            ) + visible_chars(old(self).runs()).skip(range.end as int),
            all_chars(final(self).runs()) == all_chars(old(self).runs()),
            forall|idx: LeafIdx| old(self).ids().contains(idx) ==> final(self).ids().contains(idx),
            !(res.2 is DeletedAcrossRuns) ==> res.0@.replica_id == res.1@.replica_id && res.1@.offset
                == res.0@.offset + (range.end - range.start),
            res.2 matches DeletionOutcome::DeletedInMiddleOfSingleRun { replica_id, range: deleted, .. }
                ==> replica_id == res.0@.replica_id && deleted.start == res.0@.offset && deleted.end
                == res.1@.offset,
            res.2 matches DeletionOutcome::DeletionSplitSingleRun { replica_id, offset, .. }
                ==> replica_id == res.0@.replica_id && (offset == res.0@.offset || offset
                == res.1@.offset),
            res.2 matches DeletionOutcome::DeletionMergedInPreviousRun { replica_id, offset, deleted, .. }
                ==> replica_id == res.0@.replica_id && offset == res.1@.offset && deleted == range.end
                - range.start,
            res.2 matches DeletionOutcome::DeletionMergedInNextRun { replica_id, offset, deleted, .. }
                ==> replica_id == res.0@.replica_id && offset == res.0@.offset && offset + deleted
                == res.1@.offset,
            res.2 matches DeletionOutcome::DeletedAcrossRuns { split_start, split_end } ==> {
                &&& split_start matches Some(s) ==> s.0 == res.0@.replica_id && s.2 == res.0@.offset
                &&& split_end matches Some(e) ==> e.0 == res.1@.replica_id && e.2 == res.1@.offset
                &&& split_start matches Some(s) ==> forall|p: int|
                    0 <= p < final(self).ids().len() && #[trigger] final(self).ids()[p] == s.3
                        ==> final(self).runs()[p].deleted && final(self).runs()[p].start == s.2
                        && final(self).runs()[p].inserted_by == s.0 && final(self).runs()[p].insertion_ts
                        == s.1
                &&& split_end matches Some(e) ==> forall|p: int|
                    0 <= p < final(self).ids().len() && #[trigger] final(self).ids()[p] == e.3
                        ==> !final(self).runs()[p].deleted && final(self).runs()[p].start == e.2
                        && final(self).runs()[p].inserted_by == e.0 && final(self).runs()[p].insertion_ts
                        == e.1
            },
            res.2 matches DeletionOutcome::DeletedInMiddleOfSingleRun {
                replica_id,
                insertion_ts,
                range: deleted,
                idx_of_deleted,
                idx_of_split,
            } ==> forall|p: int|
                0 <= p < final(self).ids().len() ==> (#[trigger] final(self).ids()[p]
                    == idx_of_deleted ==> final(self).runs()[p].deleted && final(self).runs()[p].start
                    == deleted.start && final(self).runs()[p].end == deleted.end
                    && final(self).runs()[p].inserted_by == replica_id
                    && final(self).runs()[p].insertion_ts == insertion_ts) && (final(self).ids()[p] == idx_of_split ==> !final(self).runs()[p].deleted && final(self).runs()[p].start == deleted.end),
            res.2 matches DeletionOutcome::DeletionSplitSingleRun { replica_id, insertion_ts, offset, idx } ==> forall|p: int|
                0 <= p < final(self).ids().len() && #[trigger] final(self).ids()[p] == idx
                    ==> final(self).runs()[p].inserted_by == replica_id
                    && final(self).runs()[p].insertion_ts == insertion_ts
                    && final(self).runs()[p].start == offset && (final(self).runs()[p].deleted
                    ==> offset == res.0@.offset) && (!final(self).runs()[p].deleted ==> offset
                    == res.1@.offset),
            ({
                let runs = old(self).runs();
                let ids = old(self).ids();
                let i = start_slot(runs, range.start as int);
                let a = (range.start - prefix_len(runs, i)) as nat;
                let j = insert_slot(runs, range.end as int);
                let b = (range.end - prefix_len(runs, j)) as nat;
                &&& i <= j
                &&& res.0@ == (AnchorModel { replica_id: runs[i].inserted_by, offset: runs[i].start + a })
                &&& res.1@ == (AnchorModel { replica_id: runs[j].inserted_by, offset: runs[j].start + b })
                &&& i == j ==> {
                    &&& final(self).runs() == deleted_in_leaf(runs, i, a, b)
                    &&& single_run_outcome(runs, i, a, b, res.2, ids, final(self).ids())
                }
                &&& i < j ==> {
                    &&& final(self).runs() == deleted_across(runs, i, a, j, b)
                    &&& res.2 matches DeletionOutcome::DeletedAcrossRuns { split_start, split_end }
                    &&& exists|first: Option<LeafIdx>, second: Option<LeafIdx>| {
                        &&& split_report(split_start, runs[i], a, first)
                        &&& split_report(split_end, runs[j], b, second)
                        &&& (first is Some) == (a > 0)
                        &&& (second is Some) == (b < runs[j].len())
                        &&& first is Some ==> !ids.contains(first->0)
                        &&& second is Some ==> !ids.contains(second->0)
                        &&& first is Some && second is Some ==> first->0 != second->0
                        &&& final(self).ids() == ids.take(i + 1) + opt_seq(first) + ids.subrange(
                            i + 1,
                            j + 1,
                        ) + opt_seq(second) + ids.skip(j + 1)
                    }
                }
            }),
    {
        let ghost runs = self.runs();
        let ghost ids = self.ids();
        let (i, a) = self.gtree.locate_start(range.start);
        let (j, b) = self.gtree.locate_insert(range.end);
        proof {
            lemma_prefix_step(runs, i as int);
            lemma_prefix_step(runs, j as int);
            if j < i {
                lemma_prefix_mono(runs, j as int + 1, i as int);
            }
        }
        if i == j {
            let run = self.gtree.leaf_at(i);
            let id_range = run.replica_id();
            let insertion_ts_range = run.insertion_ts();
            let deleted_range_offset = run.start();
            let deleted_range_run_len = run.len();
            let deleted_range = Range::new(a, b);
            let (first_idx, second_idx) = self.gtree.delete_in_leaf(i, deleted_range);
            let anchor_start = Anchor::new(id_range, deleted_range_offset + deleted_range.start);
            let anchor_end = Anchor::new(id_range, deleted_range_offset + deleted_range.end);
            let outcome = match (first_idx, second_idx) {
                (Some(first), Some(second)) => {
                    DeletionOutcome::DeletedInMiddleOfSingleRun {
                        replica_id: id_range,
                        insertion_ts: insertion_ts_range,
                        range: deleted_range.shifted(deleted_range_offset),
                        idx_of_deleted: first,
                        idx_of_split: second,
                    }
                },
                (Some(first), None) => DeletionOutcome::DeletionSplitSingleRun {
                    replica_id: id_range,
                    insertion_ts: insertion_ts_range,
                    offset: deleted_range_offset + if deleted_range.start == 0 {
                        deleted_range.end
                    } else {
                        deleted_range.start
                    },
                    idx: first,
                },
                (None, None) => {
                    if deleted_range.len() == deleted_range_run_len {
                        DeletionOutcome::DeletedWholeRun
                    } else if deleted_range.start == 0 {
                        DeletionOutcome::DeletionMergedInPreviousRun {
                            replica_id: id_range,
                            insertion_ts: insertion_ts_range,
                            offset: deleted_range_offset + deleted_range.end,
                            deleted: deleted_range.len(),
                        }
                    } else {
                        DeletionOutcome::DeletionMergedInNextRun {
                            replica_id: id_range,
                            insertion_ts: insertion_ts_range,
                            offset: deleted_range_offset + deleted_range.start,
                            deleted: deleted_range.len(),
                        }
                    }
                },
                (None, Some(_)) => {
                    proof {
                        assert(false);
                    }
                    DeletionOutcome::DeletedWholeRun
                },
            };
            proof {
                crate::gtree::lemma_deleted_in_leaf_len(runs, i as int, a as nat, b as nat);
                lemma_text_delete_in_leaf(runs, i as int, a as nat, b as nat);
                lemma_single_run_handles(runs, ids, i as int, a as nat, b as nat, outcome, self.runs(), self.ids());
                assert forall|idx: LeafIdx| ids.contains(idx) implies self.ids().contains(idx) by {
                    if a > 0 && b < runs[i as int].len() {
                        let fi = first_idx->0;
                        let si = second_idx->0;
                        crate::gtree::lemma_contained_after_insert(ids, i as int + 1, seq![fi, si], idx);
                    } else if first_idx is Some {
                        crate::gtree::lemma_contained_after_insert(ids, i as int + 1, seq![first_idx->0], idx);
                        assert(ids.take(i as int + 1) + seq![first_idx->0] + ids.skip(i as int + 1) =~= ids.insert(i as int + 1, first_idx->0));
                    }
                }
            }
            (anchor_start, anchor_end, outcome)
        } else {
            let first_run = self.gtree.leaf_at(i);
            let id_start = first_run.replica_id();
            let insertion_ts_start = first_run.insertion_ts();
            let offset_start = first_run.start() + a;
            let last_run = self.gtree.leaf_at(j);
            let id_end = last_run.replica_id();
            let insertion_ts_end = last_run.insertion_ts();
            let offset_end = last_run.start() + b;
            let (first_idx, second_idx) = self.gtree.delete_across(i, a, j, b);
            let anchor_start = Anchor::new(id_start, offset_start);
            let anchor_end = Anchor::new(id_end, offset_end);
            let split_start = match first_idx {
                Some(idx) => Some((id_start, insertion_ts_start, offset_start, idx)),
                None => None,
            };
            let split_end = match second_idx {
                Some(idx) => Some((id_end, insertion_ts_end, offset_end, idx)),
                None => None,
            };
            proof {
                assert(split_report(split_start, runs[i as int], a as nat, first_idx));
                assert(split_report(split_end, runs[j as int], b as nat, second_idx));
                crate::gtree::lemma_deleted_across_len(runs, i as int, a as nat, j as int, b as nat);
                lemma_text_delete_across(runs, i as int, a as nat, j as int, b as nat);
                lemma_across_handles(
                    runs,
                    ids,
                    i as int,
                    a as nat,
                    j as int,
                    b as nat,
                    first_idx,
                    second_idx,
                    self.runs(),
                    self.ids(),
                );
                crate::gtree::lemma_contains_after_two_inserts(ids, i as int, j as int, opt_seq(first_idx), opt_seq(second_idx));
            }
            (anchor_start, anchor_end, DeletionOutcome::DeletedAcrossRuns { split_start, split_end })
        }
    }
}

} // verus!
