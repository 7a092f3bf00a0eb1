//! The store of a document's runs: kept in document order, each reachable
//! through a handle that stays valid while runs are added around it, with the
//! document's visible length kept up to date.

use vstd::prelude::*;

use crate::replica::Length;
use crate::range::Range;
use crate::run_tree::{can_append, EditRun, RunModel};

verus! {

/// Visible length of a sequence of runs: the sum of their summaries.
pub open spec fn visible_len(runs: Seq<RunModel>) -> nat
    decreases runs.len(),
{
    if runs.len() == 0 {
        0
    } else {
        visible_len(runs.drop_last()) + runs.last().summary()
    }
}

/// Visible length of the first `i` runs.
pub open spec fn prefix_len(runs: Seq<RunModel>, i: int) -> nat {
    visible_len(runs.take(i))
}

/// The run at position `i` holds the visible offset `offset` at or before its
/// end: `offset` falls in `(prefix, prefix + summary]`.
pub open spec fn is_insert_slot(runs: Seq<RunModel>, offset: int, i: int) -> bool {
    &&& 0 <= i < runs.len()
    &&& prefix_len(runs, i) < offset <= prefix_len(runs, i + 1)
}

/// The position of the run that ends at, or contains, the visible offset `offset`.
pub open spec fn insert_slot(runs: Seq<RunModel>, offset: int) -> int {
    choose|i: int| is_insert_slot(runs, offset, i)
}

/// The run at position `i` holds the character at the visible offset
/// `offset`: `offset` falls in `[prefix, prefix + summary)`.
pub open spec fn is_start_slot(runs: Seq<RunModel>, offset: int, i: int) -> bool {
    &&& 0 <= i < runs.len()
    &&& prefix_len(runs, i) <= offset < prefix_len(runs, i + 1)
}

/// The position of the run that holds the character at the visible offset `offset`.
pub open spec fn start_slot(runs: Seq<RunModel>, offset: int) -> int {
    choose|i: int| is_start_slot(runs, offset, i)
}

/// Number of runs that contribute nothing to the visible document.
pub open spec fn count_empty(runs: Seq<RunModel>) -> nat
    decreases runs.len(),
{
    if runs.len() == 0 {
        0
    } else {
        count_empty(runs.drop_last()) + if runs.last().summary() == 0 {
            1nat
        } else {
            0nat
        }
    }
}

/// No more runs are empty than there are runs.
pub proof fn lemma_count_empty_bounded(runs: Seq<RunModel>)
    ensures
        count_empty(runs) <= runs.len(),
    decreases runs.len(),
{
    if runs.len() > 0 {
        lemma_count_empty_bounded(runs.drop_last());
    }
}

/// The visible length of two sequences put together is the sum of theirs.
pub proof fn lemma_visible_len_add(a: Seq<RunModel>, b: Seq<RunModel>)
    ensures
        visible_len(a + b) == visible_len(a) + visible_len(b),
    decreases b.len(),
{
    if b.len() == 0 {
        assert(a + b =~= a);
    } else {
        lemma_visible_len_add(a, b.drop_last());
        assert((a + b).drop_last() =~= a + b.drop_last());
    }
}

pub proof fn lemma_visible_len_single(r: RunModel)
    ensures
        visible_len(seq![r]) == r.summary(),
{
    assert(seq![r].drop_last() =~= Seq::<RunModel>::empty());
    assert(visible_len(Seq::<RunModel>::empty()) == 0);
}

/// The prefix grows by each run's summary.
pub proof fn lemma_prefix_step(runs: Seq<RunModel>, i: int)
    requires
        0 <= i < runs.len(),
    ensures
        prefix_len(runs, i + 1) == prefix_len(runs, i) + runs[i].summary(),
{
    assert(runs.take(i + 1).drop_last() =~= runs.take(i));
}

/// The prefix of all runs is the visible length.
pub proof fn lemma_prefix_full(runs: Seq<RunModel>)
    ensures
        prefix_len(runs, runs.len() as int) == visible_len(runs),
{
    assert(runs.take(runs.len() as int) =~= runs);
}

/// Prefixes never shrink as they grow longer.
pub proof fn lemma_prefix_mono(runs: Seq<RunModel>, i: int, j: int)
    requires
        0 <= i <= j <= runs.len(),
    ensures
        prefix_len(runs, i) <= prefix_len(runs, j),
    decreases j - i,
{
    if i < j {
        lemma_prefix_mono(runs, i, j - 1);
        lemma_prefix_step(runs, j - 1);
    }
}

/// Replacing one run changes the visible length by the change of its summary.
pub proof fn lemma_visible_len_update(runs: Seq<RunModel>, i: int, r: RunModel)
    requires
        0 <= i < runs.len(),
    ensures
        visible_len(runs.update(i, r)) + runs[i].summary() == visible_len(runs) + r.summary(),
        runs[i].summary() <= visible_len(runs),
{
    let pre = runs.take(i);
    let post = runs.skip(i + 1);
    assert(runs =~= pre + seq![runs[i]] + post);
    assert(runs.update(i, r) =~= pre + seq![r] + post);
    lemma_visible_len_add(pre + seq![runs[i]], post);
    lemma_visible_len_add(pre, seq![runs[i]]);
    lemma_visible_len_add(pre + seq![r], post);
    lemma_visible_len_add(pre, seq![r]);
    lemma_visible_len_single(r);
    lemma_visible_len_single(runs[i]);
}

/// Inserting one run adds its summary to the visible length.
pub proof fn lemma_visible_len_insert(runs: Seq<RunModel>, i: int, r: RunModel)
    requires
        0 <= i <= runs.len(),
    ensures
        visible_len(runs.insert(i, r)) == visible_len(runs) + r.summary(),
{
    let pre = runs.take(i);
    let post = runs.skip(i);
    assert(runs =~= pre + post);
    assert(runs.insert(i, r) =~= pre + seq![r] + post);
    lemma_visible_len_add(pre, post);
    lemma_visible_len_add(pre + seq![r], post);
    lemma_visible_len_add(pre, seq![r]);
    lemma_visible_len_single(r);
}

/// At most one run holds a given visible offset at or before its end.
pub proof fn lemma_insert_slot_unique(runs: Seq<RunModel>, offset: int, i: int, j: int)
    requires
        is_insert_slot(runs, offset, i),
        is_insert_slot(runs, offset, j),
    ensures
        i == j,
{
    if i < j {
        lemma_prefix_mono(runs, i + 1, j);
    } else if j < i {
        lemma_prefix_mono(runs, j + 1, i);
    }
}

proof fn lemma_insert_slot_from(runs: Seq<RunModel>, offset: int, p: int) -> (i: int)
    requires
        0 <= p < runs.len(),
        prefix_len(runs, p) < offset <= visible_len(runs),
    ensures
        is_insert_slot(runs, offset, i),
    decreases runs.len() - p,
{
    lemma_prefix_full(runs);
    if offset <= prefix_len(runs, p + 1) {
        p
    } else {
        if p + 1 == runs.len() {
            assert(false);
        }
        lemma_insert_slot_from(runs, offset, p + 1)
    }
}

/// Every visible offset from 1 up to the visible length is held, at or
/// before its end, by exactly one run: `insert_slot` names it, and the offset
/// within that run is at most its visible length.
pub proof fn lemma_insert_slot_exists(runs: Seq<RunModel>, offset: int)
    requires
        0 < offset <= visible_len(runs),
    ensures
        is_insert_slot(runs, offset, insert_slot(runs, offset)),
        0 < offset - prefix_len(runs, insert_slot(runs, offset)) <= runs[insert_slot(
            runs,
            offset,
        )].summary(),
{
    lemma_prefix_full(runs);
    if runs.len() == 0 {
        assert(visible_len(runs) == 0);
    }
    assert(runs.take(0) =~= Seq::<RunModel>::empty());
    let w = lemma_insert_slot_from(runs, offset, 0);
    let i = insert_slot(runs, offset);
    lemma_insert_slot_unique(runs, offset, w, i);
    lemma_prefix_step(runs, i);
}

proof fn lemma_start_slot_from(runs: Seq<RunModel>, offset: int, p: int) -> (i: int)
    requires
        0 <= p < runs.len(),
        prefix_len(runs, p) <= offset < visible_len(runs),
    ensures
        is_start_slot(runs, offset, i),
    decreases runs.len() - p,
{
    lemma_prefix_full(runs);
    if offset < prefix_len(runs, p + 1) {
        p
    } else {
        if p + 1 == runs.len() {
            assert(false);
        }
        lemma_start_slot_from(runs, offset, p + 1)
    }
}

/// Every visible offset below the visible length is the character of
/// exactly one run: `start_slot` names it, and the offset within that run is
/// below its visible length.
pub proof fn lemma_start_slot_exists(runs: Seq<RunModel>, offset: int)
    requires
        0 <= offset < visible_len(runs),
    ensures
        is_start_slot(runs, offset, start_slot(runs, offset)),
        0 <= offset - prefix_len(runs, start_slot(runs, offset)) < runs[start_slot(
            runs,
            offset,
        )].summary(),
{
    lemma_prefix_full(runs);
    if runs.len() == 0 {
        assert(visible_len(runs) == 0);
    }
    assert(runs.take(0) =~= Seq::<RunModel>::empty());
    let w = lemma_start_slot_from(runs, offset, 0);
    let i = start_slot(runs, offset);
    lemma_start_slot_unique(runs, offset, w, i);
    lemma_prefix_step(runs, i);
}

/// At most one run holds the character at a given visible offset.
pub proof fn lemma_start_slot_unique(runs: Seq<RunModel>, offset: int, i: int, j: int)
    requires
        is_start_slot(runs, offset, i),
        is_start_slot(runs, offset, j),
    ensures
        i == j,
{
    if i < j {
        lemma_prefix_mono(runs, i + 1, j);
    } else if j < i {
        lemma_prefix_mono(runs, j + 1, i);
    }
}

/// The runs that take the place of the visible run `r` when its characters
/// `a..b` (relative to its start) are deleted, before any merge.
pub open spec fn deleted_in_run(r: RunModel, a: nat, b: nat) -> Seq<RunModel> {
    if a == 0 {
        if b < r.len() {
            seq![r.head(b).as_deleted(), r.tail(b)]
        } else {
            seq![r.as_deleted()]
        }
    } else if b < r.len() {
        seq![r.head(a), r.tail(a).head((b - a) as nat).as_deleted(), r.tail(b)]
    } else {
        seq![r.head(a), r.tail(a).as_deleted()]
    }
}

/// Deleting the first `b` characters of the run at `p`, and not all of it,
/// lets the deleted part join the run before it.
pub open spec fn merges_into_previous(runs: Seq<RunModel>, p: int, a: nat, b: nat) -> bool {
    &&& a == 0
    &&& b < runs[p].len()
    &&& p > 0
    &&& can_append(runs[p - 1], runs[p].head(b).as_deleted())
}

/// Deleting the run at `p` from its character `a` on, and not all of it, lets
/// the deleted part join the run after it, which comes from the same insertion.
pub open spec fn merges_into_next(runs: Seq<RunModel>, p: int, a: nat, b: nat) -> bool {
    &&& a > 0
    &&& b >= runs[p].len()
    &&& p + 1 < runs.len()
    &&& can_append(runs[p].tail(a).as_deleted(), runs[p + 1])
    &&& runs[p + 1].insertion_ts == runs[p].insertion_ts
}

/// The runs after deleting the characters `a..b` of the visible run at `p`.
pub open spec fn deleted_in_leaf(runs: Seq<RunModel>, p: int, a: nat, b: nat) -> Seq<RunModel> {
    let r = runs[p];
    if merges_into_previous(runs, p, a, b) {
        runs.update(p - 1, runs[p - 1].with_range(runs[p - 1].start, r.start + b)).update(
            p,
            r.tail(b),
        )
    } else if merges_into_next(runs, p, a, b) {
        runs.update(p, r.head(a)).update(p + 1, runs[p + 1].with_range(r.start + a, runs[p + 1].end))
    } else {
        runs.take(p) + deleted_in_run(r, a, b) + runs.skip(p + 1)
    }
}

/// What is left of the run `r` when it is deleted from its character `a` on.
pub open spec fn deleted_from(r: RunModel, a: nat) -> Seq<RunModel> {
    if a == 0 {
        seq![r.as_deleted()]
    } else {
        seq![r.head(a), r.tail(a).as_deleted()]
    }
}

/// What is left of the run `r` when its first `b` characters are deleted.
pub open spec fn deleted_up_to(r: RunModel, b: nat) -> Seq<RunModel> {
    if b < r.len() {
        seq![r.head(b).as_deleted(), r.tail(b)]
    } else {
        seq![r.as_deleted()]
    }
}

/// The runs marked as deleted.
pub open spec fn all_deleted(runs: Seq<RunModel>) -> Seq<RunModel> {
    runs.map_values(|r: RunModel| r.as_deleted())
}

/// The runs after deleting from the character `a` of the run at `i` up to the
/// character `b` of the run at `j`, with `i < j`.
pub open spec fn deleted_across(runs: Seq<RunModel>, i: int, a: nat, j: int, b: nat) -> Seq<
    RunModel,
> {
    runs.take(i) + deleted_from(runs[i], a) + all_deleted(runs.subrange(i + 1, j)) + deleted_up_to(
        runs[j],
        b,
    ) + runs.skip(j + 1)
}

/// The handle `idx` as a sequence when it is there, else the empty sequence.
pub open spec fn opt_seq(idx: Option<LeafIdx>) -> Seq<LeafIdx> {
    match idx {
        Some(i) => seq![i],
        None => Seq::empty(),
    }
}

/// A handle that is not in `ids` with `fresh` inserted is neither in `ids`
/// nor `fresh`.
pub proof fn lemma_fresh_after_insert(ids: Seq<LeafIdx>, p: int, fresh: LeafIdx, idx: LeafIdx)
    requires
        0 <= p <= ids.len(),
        !ids.insert(p, fresh).contains(idx),
    ensures
        !ids.contains(idx),
        idx != fresh,
{
    let ids1 = ids.insert(p, fresh);
    assert(ids1[p] == fresh);
    if ids.contains(idx) {
        let q = choose|q: int| 0 <= q < ids.len() && ids[q] == idx;
        if q < p {
            assert(ids1[q] == idx);
        } else {
            assert(ids1[q + 1] == idx);
        }
    }
}

/// Whatever `s` holds, `s` with `m` put in at `k` holds too.
pub proof fn lemma_contained_after_insert<T>(s: Seq<T>, k: int, m: Seq<T>, x: T)
    requires
        0 <= k <= s.len(),
        s.contains(x),
    ensures
        (s.take(k) + m + s.skip(k)).contains(x),
{
    let t = s.take(k) + m + s.skip(k);
    let q = choose|q: int| 0 <= q < s.len() && s[q] == x;
    if q < k {
        assert(t[q] == x);
    } else {
        assert(t[q + m.len()] == x);
    }
}

/// Putting `o2` in after position `j` and then `o1` after position `i < j`
/// gives the sequence cut in three with both put in.
pub proof fn lemma_two_inserts<T>(s: Seq<T>, i: int, j: int, o1: Seq<T>, o2: Seq<T>)
    requires
        0 <= i < j < s.len(),
    ensures
        ({
            let s2 = s.take(j + 1) + o2 + s.skip(j + 1);
            s2.take(i + 1) + o1 + s2.skip(i + 1) == s.take(i + 1) + o1 + s.subrange(i + 1, j + 1)
                + o2 + s.skip(j + 1)
        }),
{
    let s2 = s.take(j + 1) + o2 + s.skip(j + 1);
    assert(s2.take(i + 1) =~= s.take(i + 1));
    assert(s2.skip(i + 1) =~= s.subrange(i + 1, j + 1) + o2 + s.skip(j + 1));
    assert(s2.take(i + 1) + o1 + s2.skip(i + 1) =~= s.take(i + 1) + o1 + s.subrange(i + 1, j + 1)
        + o2 + s.skip(j + 1));
}

/// Replacing the elements strictly between `i` and `j` by `d`, then the
/// element at `j` by `u`, then the element at `i` by `f`.
pub proof fn lemma_three_edits<T>(s: Seq<T>, i: int, j: int, d: Seq<T>, u: Seq<T>, f: Seq<T>)
    requires
        0 <= i < j < s.len(),
        d.len() == j - i - 1,
    ensures
        ({
            let s1 = s.take(i + 1) + d + s.skip(j);
            let s2 = s1.take(j) + u + s1.skip(j + 1);
            s2.take(i) + f + s2.skip(i + 1) == s.take(i) + f + d + u + s.skip(j + 1)
        }),
{
    let s1 = s.take(i + 1) + d + s.skip(j);
    let s2 = s1.take(j) + u + s1.skip(j + 1);
    assert(s1.take(j) =~= s.take(i + 1) + d);
    assert(s1.skip(j + 1) =~= s.skip(j + 1));
    assert(s2.take(i) =~= s.take(i));
    assert(s2.skip(i + 1) =~= d + u + s.skip(j + 1));
    assert(s2.take(i) + f + s2.skip(i + 1) =~= s.take(i) + f + d + u + s.skip(j + 1));
}

/// Stable handle of a run in a [`Gtree`]: it keeps naming the same run while
/// runs are inserted around it.
#[derive(Clone, Copy, Debug, PartialEq, Eq, Structural)]
pub struct LeafIdx {
    idx: usize,
}

/// The runs of a document in order, each reachable through a stable
/// [`LeafIdx`], with the visible length of the whole kept up to date.
#[derive(Clone, Debug)]
pub struct Gtree {
    /// Every run ever added, at the position its handle names.
    leaves: Vec<EditRun>,
    /// The handles of the runs, in document order.
    order: Vec<usize>,
    /// Visible length of the document.
    summary: Length,
}

impl Gtree {
    /// The runs in document order.
    pub closed spec fn runs(&self) -> Seq<RunModel> {
        Seq::new(self.order@.len(), |p: int| self.leaves@[self.order@[p] as int]@)
    }

    /// The handles of the runs, in document order.
    pub closed spec fn ids(&self) -> Seq<LeafIdx> {
        Seq::new(self.order@.len(), |p: int| LeafIdx { idx: self.order@[p] })
    }

    pub closed spec fn layout(&self) -> bool {
        &&& self.order@.len() > 0
        &&& self.order@.len() == self.leaves@.len()
        &&& forall|p: int| 0 <= p < self.order@.len() ==> self.order@[p] < self.leaves@.len()
        &&& forall|p: int, q: int|
            0 <= p < self.order@.len() && 0 <= q < self.order@.len() && p != q
                ==> self.order@[p] != self.order@[q]
        &&& forall|i: int| 0 <= i < self.leaves@.len() ==> (#[trigger] self.leaves@[i])@.wf()
        &&& self.summary == visible_len(self.runs())
    }

    /// Well-formedness: at least one run, one handle per run, no handle twice, no run whose
    /// range runs backwards, and the kept visible length is right.
    pub open spec fn wf(&self) -> bool {
        &&& self.layout()
        &&& self.runs().len() > 0
        &&& self.ids().len() == self.runs().len()
        &&& self.ids().no_duplicates()
        &&& forall|p: int| 0 <= p < self.runs().len() ==> (#[trigger] self.runs()[p]).wf()
    }

    proof fn lemma_layout_wf(&self)
        requires
            self.layout(),
        ensures
            self.wf(),
    {
        assert forall|p: int| 0 <= p < self.runs().len() implies (
        #[trigger] self.runs()[p]).wf() by {
            assert(self.leaves@[self.order@[p] as int]@.wf());
        }
        assert forall|p: int, q: int|
            0 <= p < self.ids().len() && 0 <= q < self.ids().len() && p != q implies self.ids()[p]
            != self.ids()[q] by {
            assert(self.order@[p] != self.order@[q]);
        }
    }

    /// A tree of one run.
    pub fn new(first_leaf: EditRun) -> (res: (Gtree, LeafIdx))
        requires
            first_leaf@.wf(),
        ensures
            res.0.wf(),
            res.0.runs() == seq![first_leaf@],
            res.0.ids() == seq![res.1],
    {
        let summary = first_leaf.summarize();
        let mut leaves: Vec<EditRun> = Vec::new();
        leaves.push(first_leaf);
        let mut order: Vec<usize> = Vec::new();
        order.push(0);
        let tree = Gtree { leaves, order, summary };
        proof {
            assert(tree.runs() =~= seq![first_leaf@]);
            lemma_visible_len_single(first_leaf@);
            tree.lemma_layout_wf();
            assert(tree.ids() =~= seq![LeafIdx { idx: 0 }]);
        }
        (tree, LeafIdx { idx: 0 })
    }

    /// Visible length of the document.
    pub fn summary(&self) -> (n: Length)
        requires
            self.wf(),
        ensures
            n == visible_len(self.runs()),
    {
        self.summary
    }

    /// Number of runs.
    pub fn num_leaves(&self) -> (n: usize)
        requires
            self.wf(),
        ensures
            n == self.runs().len(),
    {
        self.order.len()
    }

    /// The run at position `p` in document order.
    pub fn leaf_at(&self, p: usize) -> (run: &EditRun)
        requires
            self.wf(),
            p < self.runs().len(),
        ensures
            run@ == self.runs()[p as int],
    {
        &self.leaves[self.order[p]]
    }

    /// The handle of the run at position `p` in document order.
    pub fn idx_at(&self, p: usize) -> (idx: LeafIdx)
        requires
            self.wf(),
            p < self.runs().len(),
        ensures
            idx == self.ids()[p as int],
    {
        LeafIdx { idx: self.order[p] }
    }

    /// The run that `idx` names.
    pub fn get_leaf(&self, idx: LeafIdx) -> (run: &EditRun)
        requires
            self.wf(),
            self.ids().contains(idx),
        ensures
            forall|p: int|
                0 <= p < self.ids().len() && self.ids()[p] == idx ==> run@ == self.runs()[p],
    {
        proof {
            let p = choose|p: int| 0 <= p < self.ids().len() && self.ids()[p] == idx;
            assert(self.ids()[p].idx == idx.idx);
        }
        &self.leaves[idx.idx]
    }

    /// Replaces the run at position `p`.
    pub fn set_leaf_at(&mut self, p: usize, run: EditRun)
        requires
            old(self).wf(),
            p < old(self).runs().len(),
            run@.wf(),
            visible_len(old(self).runs().update(p as int, run@)) <= usize::MAX,
        ensures
            final(self).wf(),
            final(self).runs() == old(self).runs().update(p as int, run@),
            final(self).ids() == old(self).ids(),
    {
        let slot = self.order[p];
        let old_summary = self.leaves[slot].summarize();
        let new_summary = run.summarize();
        proof {
            lemma_visible_len_update(self.runs(), p as int, run@);
            crate::summary::lemma_diff_then_apply(old_summary, new_summary, self.summary as int);
        }
        let patch = crate::summary::diff(old_summary, new_summary);
        crate::summary::apply_diff(&mut self.summary, patch);
        let ghost old_runs = self.runs();
        self.leaves.set(slot, run);
        proof {
            assert(self.runs() =~= old_runs.update(p as int, run@)) by {
                assert forall|q: int| 0 <= q < self.order@.len() && q != p implies self.order@[q]
                    != slot by {}
            }
            self.lemma_layout_wf();
            assert(self.ids() =~= old(self).ids());
        }
    }

    /// Inserts `run` at position `p`, before the run that was there, and
    /// returns its new handle.
    pub fn insert_leaf_at(&mut self, p: usize, run: EditRun) -> (idx: LeafIdx)
        requires
            old(self).wf(),
            p <= old(self).runs().len(),
            old(self).runs().len() < usize::MAX,
            run@.wf(),
            visible_len(old(self).runs()) + run@.summary() <= usize::MAX,
        ensures
            final(self).wf(),
            final(self).runs() == old(self).runs().insert(p as int, run@),
            final(self).ids() == old(self).ids().insert(p as int, idx),
            !old(self).ids().contains(idx),
    {
        let n = self.leaves.len();
        let s = run.summarize();
        let ghost old_runs = self.runs();
        let ghost old_ids = self.ids();
        proof {
            lemma_visible_len_insert(old_runs, p as int, run@);
        }
        self.leaves.push(run);
        self.order.insert(p, n);
        self.summary = self.summary + s;
        let idx = LeafIdx { idx: n };
        proof {
            assert(self.runs() =~= old_runs.insert(p as int, run@));
            assert(self.ids() =~= old_ids.insert(p as int, idx));
            assert forall|p: int, q: int|
                0 <= p < self.order@.len() && 0 <= q < self.order@.len() && p != q implies self.order@[p]
                != self.order@[q] by {}
            assert forall|i: int| 0 <= i < self.leaves@.len() implies (
            #[trigger] self.leaves@[i])@.wf() by {
                if i < n {
                    assert(self.leaves@[i] == old(self).leaves@[i]);
                }
            }
            self.lemma_layout_wf();
            if old_ids.contains(idx) {
                let q = choose|q: int| 0 <= q < old_ids.len() && old_ids[q] == idx;
                assert(old(self).order@[q] < n);
            }
        }
        idx
    }
}

impl Gtree {
    /// Inserts `run` before every other run and returns its handle.
    pub fn prepend(&mut self, run: EditRun) -> (idx: LeafIdx)
        requires
            old(self).wf(),
            old(self).runs().len() < usize::MAX,
            run@.wf(),
            visible_len(old(self).runs()) + run@.summary() <= usize::MAX,
        ensures
            final(self).wf(),
            final(self).runs() == seq![run@] + old(self).runs(),
            final(self).ids() == seq![idx] + old(self).ids(),
            !old(self).ids().contains(idx),
    {
        let idx = self.insert_leaf_at(0, run);
        proof {
            assert(self.runs() =~= seq![run@] + old(self).runs());
            assert(self.ids() =~= seq![idx] + old(self).ids());
        }
        idx
    }

    /// Finds the run that ends at, or contains, the visible offset `offset`,
    /// and the offset within that run.
    pub fn locate_insert(&self, offset: Length) -> (found: (usize, Length))
        requires
            self.wf(),
            0 < offset <= visible_len(self.runs()),
        ensures
            is_insert_slot(self.runs(), offset as int, found.0 as int),
            found.0 == insert_slot(self.runs(), offset as int),
            found.1 == offset - prefix_len(self.runs(), found.0 as int),
    {
        let n = self.order.len();
        let mut p: usize = 0;
        let mut acc: usize = 0;
        proof {
            assert(self.runs().take(0) =~= Seq::<RunModel>::empty());
            lemma_prefix_full(self.runs());
        }
        while p < n
            invariant
                self.wf(),
                n == self.runs().len(),
                p <= n,
                acc == prefix_len(self.runs(), p as int),
                acc < offset,
                offset <= visible_len(self.runs()),
                prefix_len(self.runs(), n as int) == visible_len(self.runs()),
            decreases n - p,
        {
            let s = self.leaf_at(p).summarize();
            proof {
                lemma_prefix_step(self.runs(), p as int);
                lemma_prefix_mono(self.runs(), p as int + 1, n as int);
            }
            if offset <= acc + s {
                proof {
                    assert(is_insert_slot(self.runs(), offset as int, p as int));
                    let c = insert_slot(self.runs(), offset as int);
                    lemma_insert_slot_unique(self.runs(), offset as int, p as int, c);
                }
                return (p, offset - acc);
            }
            acc = acc + s;
            p = p + 1;
        }
        proof {
            assert(false);
        }
        (0, 0)
    }

    /// Finds the run that holds the character at the visible offset
    /// `offset`, and the offset within that run.
    pub fn locate_start(&self, offset: Length) -> (found: (usize, Length))
        requires
            self.wf(),
            offset < visible_len(self.runs()),
        ensures
            is_start_slot(self.runs(), offset as int, found.0 as int),
            found.0 == start_slot(self.runs(), offset as int),
            found.1 == offset - prefix_len(self.runs(), found.0 as int),
    {
        let n = self.order.len();
        let mut p: usize = 0;
        let mut acc: usize = 0;
        proof {
            assert(self.runs().take(0) =~= Seq::<RunModel>::empty());
            lemma_prefix_full(self.runs());
        }
        while p < n
            invariant
                self.wf(),
                n == self.runs().len(),
                p <= n,
                acc == prefix_len(self.runs(), p as int),
                acc <= offset,
                offset < visible_len(self.runs()),
                prefix_len(self.runs(), n as int) == visible_len(self.runs()),
            decreases n - p,
        {
            let s = self.leaf_at(p).summarize();
            proof {
                lemma_prefix_step(self.runs(), p as int);
                lemma_prefix_mono(self.runs(), p as int + 1, n as int);
            }
            if offset < acc + s {
                proof {
                    assert(is_start_slot(self.runs(), offset as int, p as int));
                    let c = start_slot(self.runs(), offset as int);
                    lemma_start_slot_unique(self.runs(), offset as int, p as int, c);
                }
                return (p, offset - acc);
            }
            acc = acc + s;
            p = p + 1;
        }
        proof {
            assert(false);
        }
        (0, 0)
    }

    /// Counts the runs that contribute nothing to the visible document, and
    /// all runs.
    pub fn count_empty_leaves(&self) -> (counts: (usize, usize))
        requires
            self.wf(),
        ensures
            counts.0 == count_empty(self.runs()),
            counts.1 == self.runs().len(),
            counts.0 <= counts.1,
            counts.1 >= 1,
    {
        let n = self.order.len();
        let mut p: usize = 0;
        let mut empty: usize = 0;
        proof {
            assert(self.runs().take(0) =~= Seq::<RunModel>::empty());
        }
        while p < n
            invariant
                self.wf(),
                n == self.runs().len(),
                p <= n,
                empty == count_empty(self.runs().take(p as int)),
                empty <= p,
            decreases n - p,
        {
            proof {
                assert(self.runs().take(p as int + 1).drop_last() =~= self.runs().take(p as int));
            }
            if self.leaf_at(p).summarize() == 0 {
                empty = empty + 1;
            }
            p = p + 1;
        }
        proof {
            assert(self.runs().take(n as int) =~= self.runs());
            lemma_count_empty_bounded(self.runs());
        }
        (empty, n)
    }
}

impl Gtree {
    /// Replaces the run at `p` with `x`, then `y`, then `z`, which together
    /// are no longer visible than it.
    fn replace_with_three(&mut self, p: usize, x: EditRun, y: EditRun, z: EditRun) -> (added: (
        LeafIdx,
        LeafIdx,
    ))
        requires
            old(self).wf(),
            p < old(self).runs().len(),
            old(self).runs().len() + 2 <= usize::MAX,
            x@.wf(),
            y@.wf(),
            z@.wf(),
            x@.summary() + y@.summary() + z@.summary() <= old(self).runs()[p as int].summary(),
        ensures
            final(self).wf(),
            final(self).runs() == old(self).runs().take(p as int) + seq![x@, y@, z@] + old(self).runs().skip(p + 1),
            final(self).ids() == old(self).ids().take(p + 1) + seq![added.0, added.1] + old(self).ids().skip(p + 1),
            !old(self).ids().contains(added.0),
            !old(self).ids().contains(added.1),
            added.0 != added.1,
    {
        let ghost runs = self.runs();
        let ghost ids = self.ids();
        proof {
            lemma_visible_len_update(runs, p as int, x@);
        }
        self.set_leaf_at(p, x);
        let ghost runs1 = self.runs();
        proof {
            lemma_visible_len_insert(runs1, p as int + 1, y@);
        }
        let fi = self.insert_leaf_at(p + 1, y);
        proof {
            lemma_visible_len_insert(self.runs(), p as int + 2, z@);
        }
        let si = self.insert_leaf_at(p + 2, z);
        proof {
            assert(self.runs() =~= runs.take(p as int) + seq![x@, y@, z@] + runs.skip(p + 1));
            assert(self.ids() =~= ids.take(p + 1) + seq![fi, si] + ids.skip(p + 1));
            lemma_fresh_after_insert(ids, p as int + 1, fi, si);
        }
        (fi, si)
    }

    /// Replaces the run at `p` with `x`, then `y`, which together are no
    /// longer visible than it.
    fn replace_with_two(&mut self, p: usize, x: EditRun, y: EditRun) -> (added: LeafIdx)
        requires
            old(self).wf(),
            p < old(self).runs().len(),
            old(self).runs().len() + 1 <= usize::MAX,
            x@.wf(),
            y@.wf(),
            x@.summary() + y@.summary() <= old(self).runs()[p as int].summary(),
        ensures
            final(self).wf(),
            final(self).runs() == old(self).runs().take(p as int) + seq![x@, y@] + old(self).runs().skip(p + 1),
            final(self).ids() == old(self).ids().insert(p + 1, added),
            !old(self).ids().contains(added),
    {
        let ghost runs = self.runs();
        proof {
            lemma_visible_len_update(runs, p as int, x@);
        }
        self.set_leaf_at(p, x);
        proof {
            lemma_visible_len_insert(self.runs(), p as int + 1, y@);
        }
        let fi = self.insert_leaf_at(p + 1, y);
        proof {
            assert(self.runs() =~= runs.take(p as int) + seq![x@, y@] + runs.skip(p + 1));
        }
        fi
    }

    /// The first `b` characters of the visible run at `p` were deleted: `head`
    /// is that deleted part and `rest` what is left. The deleted part joins
    /// the run before when it continues it; otherwise both stand in place of
    /// the run.
    fn finish_deleted_head(&mut self, p: usize, head: EditRun, rest: EditRun, Ghost(b): Ghost<nat>) -> (added: Option<LeafIdx>)
        requires
            old(self).wf(),
            p < old(self).runs().len(),
            old(self).runs().len() + 1 <= usize::MAX,
            !old(self).runs()[p as int].deleted,
            0 < b < old(self).runs()[p as int].len(),
            head@ == old(self).runs()[p as int].head(b).as_deleted(),
            rest@ == old(self).runs()[p as int].tail(b),
        ensures
            final(self).wf(),
            final(self).runs() == deleted_in_leaf(old(self).runs(), p as int, 0, b),
            merges_into_previous(old(self).runs(), p as int, 0, b) ==> added is None && final(self).ids() == old(self).ids(),
            !merges_into_previous(old(self).runs(), p as int, 0, b) ==> added is Some && !old(self).ids().contains(added->0) && final(self).ids() == old(self).ids().insert(
                p + 1,
                added->0,
            ),
    {
        let ghost runs = self.runs();
        let ghost r = runs[p as int];
        if p > 0 {
            let mut prev = *self.leaf_at(p - 1);
            let refused = prev.append(head);
            if refused.is_none() {
                proof {
                    lemma_visible_len_update(runs, p - 1, prev@);
                }
                self.set_leaf_at(p - 1, prev);
                proof {
                    lemma_visible_len_update(self.runs(), p as int, rest@);
                }
                self.set_leaf_at(p, rest);
                return None;
            }
        }
        let fi = self.replace_with_two(p, head, rest);
        proof {
            assert(deleted_in_run(r, 0, b) =~= seq![head@, rest@]);
        }
        Some(fi)
    }

    /// The visible run at `p` was deleted from its character `a` on: `kept`
    /// is what is left and `tail` the deleted part. The deleted part joins
    /// the run after when that run continues it and comes from the same
    /// insertion; otherwise both stand in place of the run.
    fn finish_deleted_tail(&mut self, p: usize, kept: EditRun, tail: EditRun, Ghost(a): Ghost<nat>) -> (added: Option<LeafIdx>)
        requires
            old(self).wf(),
            p < old(self).runs().len(),
            old(self).runs().len() + 1 <= usize::MAX,
            !old(self).runs()[p as int].deleted,
            0 < a < old(self).runs()[p as int].len(),
            kept@ == old(self).runs()[p as int].head(a),
            tail@ == old(self).runs()[p as int].tail(a).as_deleted(),
        ensures
            final(self).wf(),
            final(self).runs() == deleted_in_leaf(
                old(self).runs(),
                p as int,
                a,
                old(self).runs()[p as int].len(),
            ),
            merges_into_next(old(self).runs(), p as int, a, old(self).runs()[p as int].len())
                ==> added is None && final(self).ids() == old(self).ids(),
            !merges_into_next(old(self).runs(), p as int, a, old(self).runs()[p as int].len())
                ==> added is Some && !old(self).ids().contains(added->0) && final(self).ids() == old(self).ids().insert(p + 1, added->0),
    {
        let ghost runs = self.runs();
        let ghost r = runs[p as int];
        if p + 1 < self.num_leaves() {
            let mut next = *self.leaf_at(p + 1);
            if next.insertion_ts() == tail.insertion_ts() {
                let refused = next.prepend(tail);
                if refused.is_none() {
                    proof {
                        lemma_visible_len_update(runs, p as int, kept@);
                    }
                    self.set_leaf_at(p, kept);
                    proof {
                        lemma_visible_len_update(self.runs(), p + 1, next@);
                    }
                    self.set_leaf_at(p + 1, next);
                    return None;
                }
            }
        }
        let fi = self.replace_with_two(p, kept, tail);
        proof {
            assert(deleted_in_run(r, a, r.len()) =~= seq![kept@, tail@]);
        }
        Some(fi)
    }

    /// Deletes the characters `range` (relative to the run's start) of the
    /// visible run at position `p`. A deleted head joins the run before it,
    /// and a deleted tail the run after it, where they continue each other.
    /// Returns the handles of the runs that were added after the run at `p`.
    pub fn delete_in_leaf(&mut self, p: usize, range: Range) -> (added: (
        Option<LeafIdx>,
        Option<LeafIdx>,
    ))
        requires
            old(self).wf(),
            p < old(self).runs().len(),
            old(self).runs().len() + 2 <= usize::MAX,
            !old(self).runs()[p as int].deleted,
            range.start < range.end <= old(self).runs()[p as int].len(),
        ensures
            final(self).wf(),
            final(self).runs() == deleted_in_leaf(
                old(self).runs(),
                p as int,
                range.start as nat,
                range.end as nat,
            ),
            ({
                let runs = old(self).runs();
                let ids = old(self).ids();
                let a = range.start as nat;
                let b = range.end as nat;
                if merges_into_previous(runs, p as int, a, b) || merges_into_next(runs, p as int, a, b)
                    || (a == 0 && b >= runs[p as int].len()) {
                    added.0 is None && added.1 is None && final(self).ids() == ids
                } else if a > 0 && b < runs[p as int].len() {
                    &&& added.0 is Some && added.1 is Some
                    &&& !ids.contains(added.0->0) && !ids.contains(added.1->0)
                    &&& added.0->0 != added.1->0
                    &&& final(self).ids() == ids.take(p + 1) + seq![added.0->0, added.1->0]
                        + ids.skip(p + 1)
                } else {
                    &&& added.0 is Some && added.1 is None
                    &&& !ids.contains(added.0->0)
                    &&& final(self).ids() == ids.insert(p + 1, added.0->0)
                }
            }),
    {
        let ghost runs = self.runs();
        let ghost r = runs[p as int];
        let ghost a = range.start as nat;
        let ghost b = range.end as nat;
        let mut run = *self.leaf_at(p);
        let (first, second) = run.delete_range(range);
        match (first, second) {
            (Some(deleted), Some(rest)) => {
                let (fi, si) = self.replace_with_three(p, run, deleted, rest);
                proof {
                    assert(deleted_in_run(r, a, b) =~= seq![run@, deleted@, rest@]);
                }
                (Some(fi), Some(si))
            },
            (Some(part), None) => {
                if range.start == 0 {
                    (self.finish_deleted_head(p, run, part, Ghost(b)), None)
                } else {
                    (self.finish_deleted_tail(p, run, part, Ghost(a)), None)
                }
            },
            _ => {
                proof {
                    lemma_visible_len_update(runs, p as int, run@);
                }
                self.set_leaf_at(p, run);
                proof {
                    assert(self.runs() =~= runs.take(p as int) + deleted_in_run(r, a, b) + runs.skip(
                        p + 1,
                    ));
                }
                (None, None)
            },
        }
    }
}

impl Gtree {
    /// Marks the runs at positions `i + 1 .. j` as deleted.
    fn mark_deleted_between(&mut self, i: usize, j: usize)
        requires
            old(self).wf(),
            i < j <= old(self).runs().len(),
        ensures
            final(self).wf(),
            final(self).runs() == old(self).runs().take(i + 1) + all_deleted(
                old(self).runs().subrange(i + 1, j as int),
            ) + old(self).runs().skip(j as int),
            final(self).ids() == old(self).ids(),
    {
        let ghost runs = self.runs();
        let mut q = i + 1;
        proof {
            assert(runs =~= runs.take(i + 1) + all_deleted(runs.subrange(i + 1, q as int)) + runs.skip(
                q as int,
            ));
        }
        while q < j
            invariant
                self.wf(),
                i < q <= j <= runs.len(),
                self.runs() == runs.take(i + 1) + all_deleted(runs.subrange(i + 1, q as int))
                    + runs.skip(q as int),
                self.ids() == old(self).ids(),
            decreases j - q,
        {
            let mut run = *self.leaf_at(q);
            run.delete();
            proof {
                assert(self.runs()[q as int] == runs[q as int]);
                lemma_visible_len_update(self.runs(), q as int, run@);
            }
            self.set_leaf_at(q, run);
            proof {
                assert(self.runs() =~= runs.take(i + 1) + all_deleted(runs.subrange(i + 1, q + 1))
                    + runs.skip(q + 1));
            }
            q = q + 1;
        }
    }

    /// Deletes the first `b` characters of the run at `j`; a visible rest is
    /// added after it.
    fn delete_up_to_at(&mut self, j: usize, b: Length) -> (added: Option<LeafIdx>)
        requires
            old(self).wf(),
            j < old(self).runs().len(),
            old(self).runs().len() + 1 <= usize::MAX,
            0 < b <= old(self).runs()[j as int].len(),
        ensures
            final(self).wf(),
            final(self).runs() == old(self).runs().take(j as int) + deleted_up_to(
                old(self).runs()[j as int],
                b as nat,
            ) + old(self).runs().skip(j + 1),
            (added is Some) == (b < old(self).runs()[j as int].len()),
            added is Some ==> !old(self).ids().contains(added->0),
            final(self).ids() == old(self).ids().take(j + 1) + opt_seq(added) + old(self).ids().skip(
                j + 1,
            ),
    {
        let ghost runs = self.runs();
        let ghost ids = self.ids();
        let mut run = *self.leaf_at(j);
        let rest = run.delete_up_to(b);
        match rest {
            Some(rest) => {
                let fi = self.replace_with_two(j, run, rest);
                proof {
                    assert(self.runs() =~= runs.take(j as int) + deleted_up_to(runs[j as int], b as nat)
                        + runs.skip(j + 1));
                    assert(self.ids() =~= ids.take(j + 1) + opt_seq(Some(fi)) + ids.skip(j + 1));
                }
                Some(fi)
            },
            None => {
                proof {
                    lemma_visible_len_update(runs, j as int, run@);
                }
                self.set_leaf_at(j, run);
                proof {
                    assert(self.runs() =~= runs.take(j as int) + deleted_up_to(runs[j as int], b as nat)
                        + runs.skip(j + 1));
                    assert(self.ids() =~= ids.take(j + 1) + opt_seq(None) + ids.skip(j + 1));
                }
                None
            },
        }
    }

    /// Deletes the run at `i` from its character `a` on; the deleted part is
    /// added after it when some of the run stays visible.
    fn delete_from_at(&mut self, i: usize, a: Length) -> (added: Option<LeafIdx>)
        requires
            old(self).wf(),
            i < old(self).runs().len(),
            old(self).runs().len() + 1 <= usize::MAX,
            a < old(self).runs()[i as int].len(),
        ensures
            final(self).wf(),
            final(self).runs() == old(self).runs().take(i as int) + deleted_from(
                old(self).runs()[i as int],
                a as nat,
            ) + old(self).runs().skip(i + 1),
            (added is Some) == (a > 0),
            added is Some ==> !old(self).ids().contains(added->0),
            final(self).ids() == old(self).ids().take(i + 1) + opt_seq(added) + old(self).ids().skip(
                i + 1,
            ),
    {
        let ghost runs = self.runs();
        let ghost ids = self.ids();
        let mut run = *self.leaf_at(i);
        let deleted = run.delete_from(a);
        match deleted {
            Some(deleted) => {
                let fi = self.replace_with_two(i, run, deleted);
                proof {
                    assert(self.runs() =~= runs.take(i as int) + deleted_from(runs[i as int], a as nat)
                        + runs.skip(i + 1));
                    assert(self.ids() =~= ids.take(i + 1) + opt_seq(Some(fi)) + ids.skip(i + 1));
                }
                Some(fi)
            },
            None => {
                proof {
                    lemma_visible_len_update(runs, i as int, run@);
                }
                self.set_leaf_at(i, run);
                proof {
                    assert(self.runs() =~= runs.take(i as int) + deleted_from(runs[i as int], a as nat)
                        + runs.skip(i + 1));
                    assert(self.ids() =~= ids.take(i + 1) + opt_seq(None) + ids.skip(i + 1));
                }
                None
            },
        }
    }

    /// Deletes from the character `a` of the run at `i` up to the character
    /// `b` of the run at `j`, for `i < j`: the runs in between are marked
    /// deleted. Returns the handles of the deleted part added after the run
    /// at `i` and of the visible rest added after the run at `j`.
    pub fn delete_across(&mut self, i: usize, a: Length, j: usize, b: Length) -> (added: (
        Option<LeafIdx>,
        Option<LeafIdx>,
    ))
        requires
            old(self).wf(),
            i < j < old(self).runs().len(),
            old(self).runs().len() + 2 <= usize::MAX,
            a < old(self).runs()[i as int].len(),
            0 < b <= old(self).runs()[j as int].len(),
        ensures
            final(self).wf(),
            final(self).runs() == deleted_across(old(self).runs(), i as int, a as nat, j as int, b as nat),
            (added.0 is Some) == (a > 0),
            (added.1 is Some) == (b < old(self).runs()[j as int].len()),
            added.0 is Some ==> !old(self).ids().contains(added.0->0),
            added.1 is Some ==> !old(self).ids().contains(added.1->0),
            added.0 is Some && added.1 is Some ==> added.0->0 != added.1->0,
            final(self).ids() == old(self).ids().take(i + 1) + opt_seq(added.0) + old(
                self,
            ).ids().subrange(i + 1, j + 1) + opt_seq(added.1) + old(self).ids().skip(j + 1),
    {
        let ghost runs = self.runs();
        let ghost ids = self.ids();
        self.mark_deleted_between(i, j);
        let ghost runs1 = self.runs();
        proof {
            assert(runs1[j as int] == runs[j as int]);
        }
        let second = self.delete_up_to_at(j, b);
        let ghost runs2 = self.runs();
        let ghost ids2 = self.ids();
        proof {
            assert(runs2[i as int] == runs[i as int]);
        }
        let first = self.delete_from_at(i, a);
        proof {
            lemma_three_edits(
                runs,
                i as int,
                j as int,
                all_deleted(runs.subrange(i + 1, j as int)),
                deleted_up_to(runs[j as int], b as nat),
                deleted_from(runs[i as int], a as nat),
            );
            lemma_two_inserts(ids, i as int, j as int, opt_seq(first), opt_seq(second));
            if first is Some && ids.contains(first->0) {
                lemma_contained_after_insert(ids, j as int + 1, opt_seq(second), first->0);
            }
            if first is Some && second is Some {
                assert(ids2[j + 1] == second->0);
            }
        }
        (first, second)
    }
}

/// Runs marked deleted add nothing to the visible length.
pub proof fn lemma_all_deleted_len(runs: Seq<RunModel>)
    ensures
        visible_len(all_deleted(runs)) == 0,
    decreases runs.len(),
{
    if runs.len() > 0 {
        lemma_all_deleted_len(runs.drop_last());
        assert(all_deleted(runs).drop_last() =~= all_deleted(runs.drop_last()));
    }
}

/// Deleting the characters `a..b` of a visible run takes `b - a` off the
/// visible length.
pub proof fn lemma_deleted_in_run_len(r: RunModel, a: nat, b: nat)
    requires
        r.wf(),
        !r.deleted,
        a < b <= r.len(),
    ensures
        visible_len(deleted_in_run(r, a, b)) + (b - a) == r.summary(),
{
    let parts = deleted_in_run(r, a, b);
    if a == 0 {
        if b < r.len() {
            lemma_visible_len_add(seq![parts[0]], seq![parts[1]]);
            assert(parts =~= seq![parts[0]] + seq![parts[1]]);
            lemma_visible_len_single(parts[0]);
            lemma_visible_len_single(parts[1]);
        } else {
            lemma_visible_len_single(parts[0]);
        }
    } else if b < r.len() {
        assert(parts =~= seq![parts[0]] + seq![parts[1]] + seq![parts[2]]);
        lemma_visible_len_add(seq![parts[0]] + seq![parts[1]], seq![parts[2]]);
        lemma_visible_len_add(seq![parts[0]], seq![parts[1]]);
        lemma_visible_len_single(parts[0]);
        lemma_visible_len_single(parts[1]);
        lemma_visible_len_single(parts[2]);
    } else {
        assert(parts =~= seq![parts[0]] + seq![parts[1]]);
        lemma_visible_len_add(seq![parts[0]], seq![parts[1]]);
        lemma_visible_len_single(parts[0]);
        lemma_visible_len_single(parts[1]);
    }
}

/// Deleting the characters `a..b` of the visible run at `p` takes `b - a`
/// off the visible length, whether or not a deleted part joins a neighbour.
pub proof fn lemma_deleted_in_leaf_len(runs: Seq<RunModel>, p: int, a: nat, b: nat)
    requires
        0 <= p < runs.len(),
        forall|q: int| 0 <= q < runs.len() ==> (#[trigger] runs[q]).wf(),
        !runs[p].deleted,
        a < b <= runs[p].len(),
    ensures
        visible_len(deleted_in_leaf(runs, p, a, b)) + (b - a) == visible_len(runs),
{
    let r = runs[p];
    if merges_into_previous(runs, p, a, b) {
        let prev = runs[p - 1].with_range(runs[p - 1].start, r.start + b);
        let runs1 = runs.update(p - 1, prev);
        lemma_visible_len_update(runs, p - 1, prev);
        lemma_visible_len_update(runs1, p, r.tail(b));
    } else if merges_into_next(runs, p, a, b) {
        let runs1 = runs.update(p, r.head(a));
        let next = runs[p + 1].with_range(r.start + a, runs[p + 1].end);
        lemma_visible_len_update(runs, p, r.head(a));
        lemma_visible_len_update(runs1, p + 1, next);
    } else {
        let pre = runs.take(p);
        let post = runs.skip(p + 1);
        assert(runs =~= pre + seq![r] + post);
        lemma_visible_len_add(pre + seq![r], post);
        lemma_visible_len_add(pre, seq![r]);
        lemma_visible_len_single(r);
        lemma_visible_len_add(pre + deleted_in_run(r, a, b), post);
        lemma_visible_len_add(pre, deleted_in_run(r, a, b));
        lemma_deleted_in_run_len(r, a, b);
    }
}

/// Deleting from the character `a` of the visible run at `i` up to the
/// character `b` of the visible run at `j` takes off the visible length the
/// distance between those two positions.
pub proof fn lemma_deleted_across_len(runs: Seq<RunModel>, i: int, a: nat, j: int, b: nat)
    requires
        0 <= i < j < runs.len(),
        forall|q: int| 0 <= q < runs.len() ==> (#[trigger] runs[q]).wf(),
        !runs[i].deleted,
        !runs[j].deleted,
        a < runs[i].len(),
        0 < b <= runs[j].len(),
    ensures
        visible_len(deleted_across(runs, i, a, j, b)) + (prefix_len(runs, j) + b) - (prefix_len(
            runs,
            i,
        ) + a) == visible_len(runs),
{
    let ri = runs[i];
    let rj = runs[j];
    let pre = runs.take(i);
    let mid = runs.subrange(i + 1, j);
    let post = runs.skip(j + 1);
    let f = deleted_from(ri, a);
    let d = all_deleted(mid);
    let u = deleted_up_to(rj, b);
    assert(runs =~= pre + seq![ri] + mid + seq![rj] + post);
    assert(runs.take(j) =~= pre + seq![ri] + mid);
    lemma_visible_len_add(pre + seq![ri] + mid + seq![rj], post);
    lemma_visible_len_add(pre + seq![ri] + mid, seq![rj]);
    lemma_visible_len_add(pre + seq![ri], mid);
    lemma_visible_len_add(pre, seq![ri]);
    lemma_visible_len_single(ri);
    lemma_visible_len_single(rj);
    lemma_visible_len_add(pre + f + d + u, post);
    lemma_visible_len_add(pre + f + d, u);
    lemma_visible_len_add(pre + f, d);
    lemma_visible_len_add(pre, f);
    lemma_all_deleted_len(mid);
    if a == 0 {
        lemma_visible_len_single(f[0]);
        assert(f =~= seq![f[0]]);
    } else {
        lemma_deleted_in_run_len(ri, a, ri.len());
        assert(f =~= deleted_in_run(ri, a, ri.len()));
    }
    if b < rj.len() {
        lemma_deleted_in_run_len(rj, 0, b);
        assert(u =~= deleted_in_run(rj, 0, b));
    } else {
        lemma_visible_len_single(u[0]);
        assert(u =~= seq![u[0]]);
    }
}

/// Whatever `ids` holds, `ids` with `o2` put in after `j` and `o1` after
/// `i` holds too.
pub proof fn lemma_contains_after_two_inserts(
    ids: Seq<LeafIdx>,
    i: int,
    j: int,
    o1: Seq<LeafIdx>,
    o2: Seq<LeafIdx>,
)
    requires
        0 <= i < j < ids.len(),
    ensures
        forall|idx: LeafIdx|
            ids.contains(idx) ==> (ids.take(i + 1) + o1 + ids.subrange(i + 1, j + 1) + o2 + ids.skip(
                j + 1,
            )).contains(idx),
{
    lemma_two_inserts(ids, i, j, o1, o2);
    let s2 = ids.take(j + 1) + o2 + ids.skip(j + 1);
    assert forall|idx: LeafIdx| ids.contains(idx) implies (ids.take(i + 1) + o1 + ids.subrange(
        i + 1,
        j + 1,
    ) + o2 + ids.skip(j + 1)).contains(idx) by {
        lemma_contained_after_insert(ids, j + 1, o2, idx);
        lemma_contained_after_insert(s2, i + 1, o1, idx);
    }
}

} // verus!
