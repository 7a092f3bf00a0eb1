//! The document seen as characters: each character is named by the replica
//! that inserted it and its offset in that replica's text.

use vstd::prelude::*;

use crate::gtree::{
    all_deleted, deleted_across, deleted_from, deleted_in_leaf, deleted_in_run, deleted_up_to,
    merges_into_next, merges_into_previous, prefix_len, visible_len,
};
use crate::replica::ReplicaId;
use crate::run_tree::{can_append, RunModel};

verus! {

/// The characters `count` characters of `replica`'s text, starting at its
/// character `start`, each named by its replica and its offset in that text.
pub open spec fn text_chars(replica: ReplicaId, start: nat, count: nat) -> Seq<(ReplicaId, nat)> {
    Seq::new(count, |q: int| (replica, (start + q) as nat))
}

/// The characters of a run, deleted or not.
pub open spec fn run_chars(r: RunModel) -> Seq<(ReplicaId, nat)> {
    text_chars(r.inserted_by, r.start, r.len())
}

/// The characters of a run that are part of the visible document.
pub open spec fn shown_chars(r: RunModel) -> Seq<(ReplicaId, nat)> {
    if r.deleted {
        Seq::empty()
    } else {
        run_chars(r)
    }
}

/// The visible document: the characters of the runs that are not deleted, in order.
pub open spec fn visible_chars(runs: Seq<RunModel>) -> Seq<(ReplicaId, nat)>
    decreases runs.len(),
{
    if runs.len() == 0 {
        Seq::empty()
    } else {
        visible_chars(runs.drop_last()) + shown_chars(runs.last())
    }
}

/// Every character the runs hold, deleted ones included, in order.
pub open spec fn all_chars(runs: Seq<RunModel>) -> Seq<(ReplicaId, nat)>
    decreases runs.len(),
{
    if runs.len() == 0 {
        Seq::empty()
    } else {
        all_chars(runs.drop_last()) + run_chars(runs.last())
    }
}

pub proof fn lemma_visible_chars_add(a: Seq<RunModel>, b: Seq<RunModel>)
    ensures
        visible_chars(a + b) == visible_chars(a) + visible_chars(b),
    decreases b.len(),
{
    if b.len() == 0 {
        assert(a + b =~= a);
        assert(visible_chars(a) + visible_chars(b) =~= visible_chars(a));
    } else {
        lemma_visible_chars_add(a, b.drop_last());
        assert((a + b).drop_last() =~= a + b.drop_last());
        assert((a + b).last() == b.last());
        assert(visible_chars(a + b) =~= visible_chars(a) + visible_chars(b));
    }
}

pub proof fn lemma_all_chars_add(a: Seq<RunModel>, b: Seq<RunModel>)
    ensures
        all_chars(a + b) == all_chars(a) + all_chars(b),
    decreases b.len(),
{
    if b.len() == 0 {
        assert(a + b =~= a);
        assert(all_chars(a) + all_chars(b) =~= all_chars(a));
    } else {
        lemma_all_chars_add(a, b.drop_last());
        assert((a + b).drop_last() =~= a + b.drop_last());
        assert((a + b).last() == b.last());
        assert(all_chars(a + b) =~= all_chars(a) + all_chars(b));
    }
}

pub proof fn lemma_chars_single(r: RunModel)
    ensures
        visible_chars(seq![r]) == shown_chars(r),
        all_chars(seq![r]) == run_chars(r),
{
    assert(seq![r].drop_last() =~= Seq::<RunModel>::empty());
    assert(visible_chars(Seq::<RunModel>::empty()) == Seq::<(ReplicaId, nat)>::empty());
    assert(all_chars(Seq::<RunModel>::empty()) == Seq::<(ReplicaId, nat)>::empty());
    assert(visible_chars(seq![r]) =~= shown_chars(r));
    assert(all_chars(seq![r]) =~= run_chars(r));
}

/// The visible document is as long as the visible length.
pub proof fn lemma_visible_chars_len(runs: Seq<RunModel>)
    ensures
        visible_chars(runs).len() == visible_len(runs),
    decreases runs.len(),
{
    if runs.len() > 0 {
        lemma_visible_chars_len(runs.drop_last());
    }
}

/// The visible document around the run at `i`.
pub proof fn lemma_visible_chars_around(runs: Seq<RunModel>, i: int)
    requires
        0 <= i < runs.len(),
    ensures
        visible_chars(runs) == visible_chars(runs.take(i)) + shown_chars(runs[i]) + visible_chars(
            runs.skip(i + 1),
        ),
        visible_chars(runs.take(i)).len() == prefix_len(runs, i),
{
    assert(runs =~= runs.take(i) + seq![runs[i]] + runs.skip(i + 1));
    lemma_visible_chars_add(runs.take(i) + seq![runs[i]], runs.skip(i + 1));
    lemma_visible_chars_add(runs.take(i), seq![runs[i]]);
    lemma_chars_single(runs[i]);
    lemma_visible_chars_len(runs.take(i));
}

/// All characters around the run at `i`.
pub proof fn lemma_all_chars_around(runs: Seq<RunModel>, i: int)
    requires
        0 <= i < runs.len(),
    ensures
        all_chars(runs) == all_chars(runs.take(i)) + run_chars(runs[i]) + all_chars(runs.skip(i + 1)),
{
    assert(runs =~= runs.take(i) + seq![runs[i]] + runs.skip(i + 1));
    lemma_all_chars_add(runs.take(i) + seq![runs[i]], runs.skip(i + 1));
    lemma_all_chars_add(runs.take(i), seq![runs[i]]);
    lemma_chars_single(runs[i]);
}

/// A run's characters are those of its first `k` characters, then the rest.
pub proof fn lemma_run_chars_split(r: RunModel, k: nat)
    requires
        r.wf(),
        k <= r.len(),
    ensures
        run_chars(r) == run_chars(r.head(k)) + run_chars(r.tail(k)),
        run_chars(r.head(k)) == run_chars(r).take(k as int),
        run_chars(r.tail(k)) == run_chars(r).skip(k as int),
{
    assert(run_chars(r.head(k)) =~= run_chars(r).take(k as int));
    assert(run_chars(r.tail(k)) =~= run_chars(r).skip(k as int));
    assert(run_chars(r) =~= run_chars(r.head(k)) + run_chars(r.tail(k)));
}

/// Runs marked deleted show nothing and keep their characters.
pub proof fn lemma_all_deleted_chars(runs: Seq<RunModel>)
    ensures
        visible_chars(all_deleted(runs)) == Seq::<(ReplicaId, nat)>::empty(),
        all_chars(all_deleted(runs)) == all_chars(runs),
    decreases runs.len(),
{
    if runs.len() > 0 {
        lemma_all_deleted_chars(runs.drop_last());
        assert(all_deleted(runs).drop_last() =~= all_deleted(runs.drop_last()));
        assert(visible_chars(all_deleted(runs)) =~= Seq::<(ReplicaId, nat)>::empty());
    } else {
        assert(all_deleted(runs) =~= Seq::<RunModel>::empty());
    }
}

/// Putting a run in at position `p` puts its shown characters in the visible
/// document where the runs before `p` end.
pub proof fn lemma_text_insert_run(runs: Seq<RunModel>, p: int, x: RunModel)
    requires
        0 <= p <= runs.len(),
    ensures
        visible_chars(runs.insert(p, x)) == visible_chars(runs).take(prefix_len(runs, p) as int)
            + shown_chars(x) + visible_chars(runs).skip(prefix_len(runs, p) as int),
{
    let pre = runs.take(p);
    let post = runs.skip(p);
    assert(runs =~= pre + post);
    assert(runs.insert(p, x) =~= pre + seq![x] + post);
    lemma_visible_chars_add(pre, post);
    lemma_visible_chars_add(pre + seq![x], post);
    lemma_visible_chars_add(pre, seq![x]);
    lemma_chars_single(x);
    lemma_visible_chars_len(pre);
    let vc = visible_chars(runs);
    assert(vc.take(prefix_len(runs, p) as int) =~= visible_chars(pre));
    assert(vc.skip(prefix_len(runs, p) as int) =~= visible_chars(post));
}

/// Splitting the visible run at `i` after `k` characters and putting `x` in
/// between puts the shown characters of `x` at the split point.
pub proof fn lemma_text_split_run(runs: Seq<RunModel>, i: int, k: nat, x: RunModel)
    requires
        0 <= i < runs.len(),
        runs[i].wf(),
        !runs[i].deleted,
        k <= runs[i].len(),
    ensures
        ({
            let r = runs[i];
            let vc = visible_chars(runs);
            let at = (prefix_len(runs, i) + k) as int;
            visible_chars(runs.take(i) + seq![r.head(k), x, r.tail(k)] + runs.skip(i + 1)) == vc.take(
                at,
            ) + shown_chars(x) + vc.skip(at)
        }),
{
    let r = runs[i];
    let pre = runs.take(i);
    let post = runs.skip(i + 1);
    lemma_visible_chars_around(runs, i);
    lemma_run_chars_split(r, k);
    let mid = seq![r.head(k), x, r.tail(k)];
    assert(mid =~= seq![r.head(k)] + seq![x] + seq![r.tail(k)]);
    lemma_visible_chars_add(pre + mid, post);
    lemma_visible_chars_add(pre, mid);
    lemma_visible_chars_add(seq![r.head(k)] + seq![x], seq![r.tail(k)]);
    lemma_visible_chars_add(seq![r.head(k)], seq![x]);
    lemma_chars_single(r.head(k));
    lemma_chars_single(x);
    lemma_chars_single(r.tail(k));
    let vc = visible_chars(runs);
    let at = (prefix_len(runs, i) + k) as int;
    assert(vc.take(at) =~= visible_chars(pre) + run_chars(r).take(k as int));
    assert(vc.skip(at) =~= run_chars(r).skip(k as int) + visible_chars(post));
    assert(visible_chars(pre + mid) + visible_chars(post) =~= vc.take(at) + shown_chars(x) + vc.skip(
        at,
    ));
}

/// Growing the visible run at `i` at its end by `n` characters of its own
/// text puts them where the run ends.
pub proof fn lemma_text_extend_run(runs: Seq<RunModel>, i: int, n: nat)
    requires
        0 <= i < runs.len(),
        runs[i].wf(),
        !runs[i].deleted,
    ensures
        ({
            let r = runs[i];
            let vc = visible_chars(runs);
            let at = (prefix_len(runs, i) + r.len()) as int;
            visible_chars(runs.update(i, r.with_range(r.start, (r.end + n) as nat))) == vc.take(at) + text_chars(r.inserted_by, r.end, n) + vc.skip(at)
        }),
{
    let r = runs[i];
    let r2 = r.with_range(r.start, (r.end + n) as nat);
    let updated = runs.update(i, r2);
    lemma_visible_chars_around(runs, i);
    lemma_visible_chars_around(updated, i);
    assert(updated.take(i) =~= runs.take(i));
    assert(updated.skip(i + 1) =~= runs.skip(i + 1));
    assert(run_chars(r2) =~= run_chars(r) + text_chars(r.inserted_by, r.end, n));
    let vc = visible_chars(runs);
    let at = (prefix_len(runs, i) + r.len()) as int;
    assert(vc.take(at) =~= visible_chars(runs.take(i)) + run_chars(r));
    assert(vc.skip(at) =~= visible_chars(runs.skip(i + 1)));
    assert(visible_chars(updated) =~= vc.take(at) + text_chars(r.inserted_by, r.end, n) + vc.skip(
        at,
    ));
}

/// The characters of `deleted_in_run`: all of the run's, of which only those
/// outside `a..b` are shown.
pub proof fn lemma_deleted_in_run_chars(r: RunModel, a: nat, b: nat)
    requires
        r.wf(),
        !r.deleted,
        a < b <= r.len(),
    ensures
        visible_chars(deleted_in_run(r, a, b)) == run_chars(r).take(a as int) + run_chars(r).skip(
            b as int,
        ),
        all_chars(deleted_in_run(r, a, b)) == run_chars(r),
{
    let parts = deleted_in_run(r, a, b);
    let c = run_chars(r);
    lemma_run_chars_split(r, a);
    lemma_run_chars_split(r, b);
    if a == 0 {
        if b < r.len() {
            assert(parts =~= seq![parts[0]] + seq![parts[1]]);
            lemma_visible_chars_add(seq![parts[0]], seq![parts[1]]);
            lemma_all_chars_add(seq![parts[0]], seq![parts[1]]);
            lemma_chars_single(parts[0]);
            lemma_chars_single(parts[1]);
            assert(run_chars(parts[0]) == run_chars(r.head(b)));
            assert(c.take(0) =~= Seq::<(ReplicaId, nat)>::empty());
            assert(visible_chars(parts) =~= c.take(a as int) + c.skip(b as int));
        } else {
            lemma_chars_single(parts[0]);
            assert(c.take(0) =~= Seq::<(ReplicaId, nat)>::empty());
            assert(c.skip(b as int) =~= Seq::<(ReplicaId, nat)>::empty());
            assert(visible_chars(parts) =~= c.take(a as int) + c.skip(b as int));
        }
    } else if b < r.len() {
        let m = r.tail(a).head((b - a) as nat);
        assert(parts =~= seq![parts[0]] + seq![parts[1]] + seq![parts[2]]);
        lemma_visible_chars_add(seq![parts[0]] + seq![parts[1]], seq![parts[2]]);
        lemma_visible_chars_add(seq![parts[0]], seq![parts[1]]);
        lemma_all_chars_add(seq![parts[0]] + seq![parts[1]], seq![parts[2]]);
        lemma_all_chars_add(seq![parts[0]], seq![parts[1]]);
        lemma_chars_single(parts[0]);
        lemma_chars_single(parts[1]);
        lemma_chars_single(parts[2]);
        assert(run_chars(m) =~= c.subrange(a as int, b as int));
        assert(c =~= c.take(a as int) + c.subrange(a as int, b as int) + c.skip(b as int));
        assert(visible_chars(parts) =~= c.take(a as int) + c.skip(b as int));
        assert(all_chars(parts) =~= c);
    } else {
        assert(parts =~= seq![parts[0]] + seq![parts[1]]);
        lemma_visible_chars_add(seq![parts[0]], seq![parts[1]]);
        lemma_all_chars_add(seq![parts[0]], seq![parts[1]]);
        lemma_chars_single(parts[0]);
        lemma_chars_single(parts[1]);
        assert(run_chars(parts[1]) == run_chars(r.tail(a)));
        assert(c.skip(b as int) =~= Seq::<(ReplicaId, nat)>::empty());
        assert(visible_chars(parts) =~= c.take(a as int) + c.skip(b as int));
    }
}

proof fn lemma_text_merge_previous(runs: Seq<RunModel>, p: int, a: nat, b: nat)
    requires
        0 <= p < runs.len(),
        forall|q: int| 0 <= q < runs.len() ==> (#[trigger] runs[q]).wf(),
        !runs[p].deleted,
        a < b <= runs[p].len(),
        merges_into_previous(runs, p, a, b),
    ensures
        ({
            let vc = visible_chars(runs);
            let at = prefix_len(runs, p) as int;
            visible_chars(deleted_in_leaf(runs, p, a, b)) == vc.take(at + a) + vc.skip(at + b)
        }),
        all_chars(deleted_in_leaf(runs, p, a, b)) == all_chars(runs),
{
    let r = runs[p];
    let vc = visible_chars(runs);
    let at = prefix_len(runs, p) as int;
    let c = run_chars(r);
    let result = deleted_in_leaf(runs, p, a, b);
    lemma_visible_chars_around(runs, p);
    lemma_all_chars_around(runs, p);
    lemma_run_chars_split(r, a);
    lemma_run_chars_split(r, b);
    assert(vc.take(at + a) =~= visible_chars(runs.take(p)) + c.take(a as int));
    assert(vc.skip(at + b) =~= c.skip(b as int) + visible_chars(runs.skip(p + 1)));
    let prev = runs[p - 1];
    let prev2 = prev.with_range(prev.start, r.start + b);
    let runs1 = runs.update(p - 1, prev2);
    assert(result == runs1.update(p, r.tail(b)));
    assert(result.take(p - 1) =~= runs.take(p - 1));
    assert(result.skip(p + 1) =~= runs.skip(p + 1));
    assert(runs.take(p) =~= runs.take(p - 1) + seq![prev]);
    assert(result =~= runs.take(p - 1) + seq![prev2, r.tail(b)] + runs.skip(p + 1));
    assert(seq![prev2, r.tail(b)] =~= seq![prev2] + seq![r.tail(b)]);
    lemma_visible_chars_add(runs.take(p - 1) + seq![prev2, r.tail(b)], runs.skip(p + 1));
    lemma_visible_chars_add(runs.take(p - 1), seq![prev2, r.tail(b)]);
    lemma_visible_chars_add(seq![prev2], seq![r.tail(b)]);
    lemma_visible_chars_add(runs.take(p - 1), seq![prev]);
    lemma_all_chars_add(runs.take(p - 1) + seq![prev2, r.tail(b)], runs.skip(p + 1));
    lemma_all_chars_add(runs.take(p - 1), seq![prev2, r.tail(b)]);
    lemma_all_chars_add(seq![prev2], seq![r.tail(b)]);
    lemma_all_chars_add(runs.take(p - 1), seq![prev]);
    lemma_chars_single(prev);
    lemma_chars_single(prev2);
    lemma_chars_single(r.tail(b));
    assert(c.take(0) =~= Seq::<(ReplicaId, nat)>::empty());
    assert(run_chars(prev2) =~= run_chars(prev) + c.take(b as int));
    assert(visible_chars(result) =~= vc.take(at + a) + vc.skip(at + b));
    assert(all_chars(result) =~= all_chars(runs));
}

proof fn lemma_text_merge_next(runs: Seq<RunModel>, p: int, a: nat, b: nat)
    requires
        0 <= p < runs.len(),
        forall|q: int| 0 <= q < runs.len() ==> (#[trigger] runs[q]).wf(),
        !runs[p].deleted,
        a < b <= runs[p].len(),
        !merges_into_previous(runs, p, a, b),
        merges_into_next(runs, p, a, b),
    ensures
        ({
            let vc = visible_chars(runs);
            let at = prefix_len(runs, p) as int;
            visible_chars(deleted_in_leaf(runs, p, a, b)) == vc.take(at + a) + vc.skip(at + b)
        }),
        all_chars(deleted_in_leaf(runs, p, a, b)) == all_chars(runs),
{
    let r = runs[p];
    let vc = visible_chars(runs);
    let at = prefix_len(runs, p) as int;
    let c = run_chars(r);
    let result = deleted_in_leaf(runs, p, a, b);
    lemma_visible_chars_around(runs, p);
    lemma_all_chars_around(runs, p);
    lemma_run_chars_split(r, a);
    lemma_run_chars_split(r, b);
    assert(vc.take(at + a) =~= visible_chars(runs.take(p)) + c.take(a as int));
    assert(vc.skip(at + b) =~= c.skip(b as int) + visible_chars(runs.skip(p + 1)));
    let next = runs[p + 1];
    let next2 = next.with_range(r.start + a, next.end);
    assert(result =~= runs.take(p) + seq![r.head(a), next2] + runs.skip(p + 2));
    assert(runs.skip(p + 1) =~= seq![next] + runs.skip(p + 2));
    assert(seq![r.head(a), next2] =~= seq![r.head(a)] + seq![next2]);
    lemma_visible_chars_add(runs.take(p) + seq![r.head(a), next2], runs.skip(p + 2));
    lemma_visible_chars_add(runs.take(p), seq![r.head(a), next2]);
    lemma_visible_chars_add(seq![r.head(a)], seq![next2]);
    lemma_visible_chars_add(seq![next], runs.skip(p + 2));
    lemma_all_chars_add(runs.take(p) + seq![r.head(a), next2], runs.skip(p + 2));
    lemma_all_chars_add(runs.take(p), seq![r.head(a), next2]);
    lemma_all_chars_add(seq![r.head(a)], seq![next2]);
    lemma_all_chars_add(seq![next], runs.skip(p + 2));
    lemma_chars_single(next);
    lemma_chars_single(next2);
    lemma_chars_single(r.head(a));
    assert(c.skip(b as int) =~= Seq::<(ReplicaId, nat)>::empty());
    assert(run_chars(next2) =~= c.skip(a as int) + run_chars(next));
    assert(visible_chars(result) =~= vc.take(at + a) + vc.skip(at + b));
    assert(all_chars(result) =~= all_chars(runs));
}

proof fn lemma_text_no_merge(runs: Seq<RunModel>, p: int, a: nat, b: nat)
    requires
        0 <= p < runs.len(),
        forall|q: int| 0 <= q < runs.len() ==> (#[trigger] runs[q]).wf(),
        !runs[p].deleted,
        a < b <= runs[p].len(),
        !merges_into_previous(runs, p, a, b),
        !merges_into_next(runs, p, a, b),
    ensures
        ({
            let vc = visible_chars(runs);
            let at = prefix_len(runs, p) as int;
            visible_chars(deleted_in_leaf(runs, p, a, b)) == vc.take(at + a) + vc.skip(at + b)
        }),
        all_chars(deleted_in_leaf(runs, p, a, b)) == all_chars(runs),
{
    let r = runs[p];
    let vc = visible_chars(runs);
    let at = prefix_len(runs, p) as int;
    let c = run_chars(r);
    let result = deleted_in_leaf(runs, p, a, b);
    lemma_visible_chars_around(runs, p);
    lemma_all_chars_around(runs, p);
    lemma_run_chars_split(r, a);
    lemma_run_chars_split(r, b);
    assert(vc.take(at + a) =~= visible_chars(runs.take(p)) + c.take(a as int));
    assert(vc.skip(at + b) =~= c.skip(b as int) + visible_chars(runs.skip(p + 1)));
    let parts = deleted_in_run(r, a, b);
    lemma_deleted_in_run_chars(r, a, b);
    lemma_visible_chars_add(runs.take(p) + parts, runs.skip(p + 1));
    lemma_visible_chars_add(runs.take(p), parts);
    lemma_all_chars_add(runs.take(p) + parts, runs.skip(p + 1));
    lemma_all_chars_add(runs.take(p), parts);
    assert(visible_chars(result) =~= vc.take(at + a) + vc.skip(at + b));
    assert(all_chars(result) =~= all_chars(runs));
}

/// Deleting the characters `a..b` of the visible run at `p` takes exactly
/// those characters out of the visible document, and keeps every character.
pub proof fn lemma_text_delete_in_leaf(runs: Seq<RunModel>, p: int, a: nat, b: nat)
    requires
        0 <= p < runs.len(),
        forall|q: int| 0 <= q < runs.len() ==> (#[trigger] runs[q]).wf(),
        !runs[p].deleted,
        a < b <= runs[p].len(),
    ensures
        ({
            let vc = visible_chars(runs);
            let at = prefix_len(runs, p) as int;
            visible_chars(deleted_in_leaf(runs, p, a, b)) == vc.take(at + a) + vc.skip(at + b)
        }),
        all_chars(deleted_in_leaf(runs, p, a, b)) == all_chars(runs),
{
    if merges_into_previous(runs, p, a, b) {
        lemma_text_merge_previous(runs, p, a, b);
    } else if merges_into_next(runs, p, a, b) {
        lemma_text_merge_next(runs, p, a, b);
    } else {
        lemma_text_no_merge(runs, p, a, b);
    }
}

/// Deleting from the character `a` of the visible run at `i` up to the
/// character `b` of the visible run at `j` takes exactly the characters in
/// between out of the visible document, and keeps every character.
pub proof fn lemma_text_delete_across(runs: Seq<RunModel>, i: int, a: nat, j: int, b: nat)
    requires
        0 <= i < j < runs.len(),
        forall|q: int| 0 <= q < runs.len() ==> (#[trigger] runs[q]).wf(),
        !runs[i].deleted,
        !runs[j].deleted,
        a < runs[i].len(),
        0 < b <= runs[j].len(),
    ensures
        ({
            let vc = visible_chars(runs);
            visible_chars(deleted_across(runs, i, a, j, b)) == vc.take((prefix_len(runs, i) + a) as int)
                + vc.skip((prefix_len(runs, j) + b) as int)
        }),
        all_chars(deleted_across(runs, i, a, j, b)) == all_chars(runs),
{
    let ri = runs[i];
    let rj = runs[j];
    let pre = runs.take(i);
    let mid = runs.subrange(i + 1, j);
    let post = runs.skip(j + 1);
    let f = deleted_from(ri, a);
    let d = all_deleted(mid);
    let u = deleted_up_to(rj, b);
    let vc = visible_chars(runs);
    assert(runs =~= pre + seq![ri] + mid + seq![rj] + post);
    assert(runs.take(j) =~= pre + seq![ri] + mid);
    lemma_visible_chars_add(pre + seq![ri] + mid + seq![rj], post);
    lemma_visible_chars_add(pre + seq![ri] + mid, seq![rj]);
    lemma_visible_chars_add(pre + seq![ri], mid);
    lemma_visible_chars_add(pre, seq![ri]);
    lemma_all_chars_add(pre + seq![ri] + mid + seq![rj], post);
    lemma_all_chars_add(pre + seq![ri] + mid, seq![rj]);
    lemma_all_chars_add(pre + seq![ri], mid);
    lemma_all_chars_add(pre, seq![ri]);
    lemma_chars_single(ri);
    lemma_chars_single(rj);
    lemma_visible_chars_add(pre + f + d + u, post);
    lemma_visible_chars_add(pre + f + d, u);
    lemma_visible_chars_add(pre + f, d);
    lemma_visible_chars_add(pre, f);
    lemma_all_chars_add(pre + f + d + u, post);
    lemma_all_chars_add(pre + f + d, u);
    lemma_all_chars_add(pre + f, d);
    lemma_all_chars_add(pre, f);
    lemma_all_deleted_chars(mid);
    lemma_visible_chars_len(pre);
    lemma_visible_chars_len(pre + seq![ri] + mid);
    if a == 0 {
        lemma_chars_single(f[0]);
        assert(f =~= seq![f[0]]);
        assert(run_chars(ri).take(0) =~= Seq::<(ReplicaId, nat)>::empty());
    } else {
        lemma_deleted_in_run_chars(ri, a, ri.len());
        assert(f =~= deleted_in_run(ri, a, ri.len()));
        assert(run_chars(ri).skip(ri.len() as int) =~= Seq::<(ReplicaId, nat)>::empty());
    }
    if b < rj.len() {
        lemma_deleted_in_run_chars(rj, 0, b);
        assert(u =~= deleted_in_run(rj, 0, b));
        assert(run_chars(rj).take(0) =~= Seq::<(ReplicaId, nat)>::empty());
    } else {
        lemma_chars_single(u[0]);
        assert(u =~= seq![u[0]]);
        assert(run_chars(rj).skip(b as int) =~= Seq::<(ReplicaId, nat)>::empty());
    }
    lemma_run_chars_split(ri, a);
    let at_i = (prefix_len(runs, i) + a) as int;
    let at_j = (prefix_len(runs, j) + b) as int;
    assert(vc.take(at_i) =~= visible_chars(pre) + run_chars(ri).take(a as int));
    assert(vc.skip(at_j) =~= run_chars(rj).skip(b as int) + visible_chars(post));
    assert(visible_chars(deleted_across(runs, i, a, j, b)) =~= vc.take(at_i) + vc.skip(at_j));
    assert(all_chars(deleted_across(runs, i, a, j, b)) =~= all_chars(runs));
}

/// Putting a run in at position `p` puts its characters among all
/// characters where those of the runs before `p` end.
pub proof fn lemma_all_chars_insert_run(runs: Seq<RunModel>, p: int, x: RunModel)
    requires
        0 <= p <= runs.len(),
    ensures
        ({
            let ac = all_chars(runs);
            let at = all_chars(runs.take(p)).len() as int;
            all_chars(runs.insert(p, x)) == ac.take(at) + run_chars(x) + ac.skip(at)
        }),
{
    let pre = runs.take(p);
    let post = runs.skip(p);
    assert(runs =~= pre + post);
    assert(runs.insert(p, x) =~= pre + seq![x] + post);
    lemma_all_chars_add(pre, post);
    lemma_all_chars_add(pre + seq![x], post);
    lemma_all_chars_add(pre, seq![x]);
    lemma_chars_single(x);
    let ac = all_chars(runs);
    let at = all_chars(pre).len() as int;
    assert(ac.take(at) =~= all_chars(pre));
    assert(ac.skip(at) =~= all_chars(post));
}

/// Splitting the run at `i` after `k` characters and putting `x` in between
/// puts the characters of `x` right after the first `k` of the run.
pub proof fn lemma_all_chars_split_run(runs: Seq<RunModel>, i: int, k: nat, x: RunModel)
    requires
        0 <= i < runs.len(),
        runs[i].wf(),
        k <= runs[i].len(),
    ensures
        ({
            let r = runs[i];
            let ac = all_chars(runs);
            let at = (all_chars(runs.take(i)).len() + k) as int;
            all_chars(runs.take(i) + seq![r.head(k), x, r.tail(k)] + runs.skip(i + 1)) == ac.take(
                at,
            ) + run_chars(x) + ac.skip(at)
        }),
{
    let r = runs[i];
    let pre = runs.take(i);
    let post = runs.skip(i + 1);
    lemma_all_chars_around(runs, i);
    lemma_run_chars_split(r, k);
    let mid = seq![r.head(k), x, r.tail(k)];
    assert(mid =~= seq![r.head(k)] + seq![x] + seq![r.tail(k)]);
    lemma_all_chars_add(pre + mid, post);
    lemma_all_chars_add(pre, mid);
    lemma_all_chars_add(seq![r.head(k)] + seq![x], seq![r.tail(k)]);
    lemma_all_chars_add(seq![r.head(k)], seq![x]);
    lemma_chars_single(r.head(k));
    lemma_chars_single(x);
    lemma_chars_single(r.tail(k));
    let ac = all_chars(runs);
    let at = (all_chars(pre).len() + k) as int;
    assert(ac.take(at) =~= all_chars(pre) + run_chars(r).take(k as int));
    assert(ac.skip(at) =~= run_chars(r).skip(k as int) + all_chars(post));
    assert(all_chars(pre + mid) + all_chars(post) =~= ac.take(at) + run_chars(x) + ac.skip(at));
}

/// Growing the run at `i` at its end by `n` characters of its own text puts
/// them right after its characters.
pub proof fn lemma_all_chars_extend_run(runs: Seq<RunModel>, i: int, n: nat)
    requires
        0 <= i < runs.len(),
        runs[i].wf(),
    ensures
        ({
            let r = runs[i];
            let ac = all_chars(runs);
            let at = (all_chars(runs.take(i)).len() + r.len()) as int;
            all_chars(runs.update(i, r.with_range(r.start, (r.end + n) as nat))) == ac.take(at)
                + text_chars(r.inserted_by, r.end, n) + ac.skip(at)
        }),
{
    let r = runs[i];
    let r2 = r.with_range(r.start, (r.end + n) as nat);
    let updated = runs.update(i, r2);
    lemma_all_chars_around(runs, i);
    lemma_all_chars_around(updated, i);
    assert(updated.take(i) =~= runs.take(i));
    assert(updated.skip(i + 1) =~= runs.skip(i + 1));
    assert(run_chars(r2) =~= run_chars(r) + text_chars(r.inserted_by, r.end, n));
    let ac = all_chars(runs);
    let at = (all_chars(runs.take(i)).len() + r.len()) as int;
    assert(ac.take(at) =~= all_chars(runs.take(i)) + run_chars(r));
    assert(ac.skip(at) =~= all_chars(runs.skip(i + 1)));
    assert(all_chars(updated) =~= ac.take(at) + text_chars(r.inserted_by, r.end, n) + ac.skip(at));
}

/// Deleting the text that an insertion just put in at `offset` gives the
/// visible document back.
pub proof fn lemma_delete_undoes_insert(
    before: Seq<RunModel>,
    inserted: Seq<RunModel>,
    after: Seq<RunModel>,
    offset: int,
    text: Seq<(ReplicaId, nat)>,
)
    requires
        0 <= offset <= visible_chars(before).len(),
        visible_chars(inserted) == visible_chars(before).take(offset) + text + visible_chars(
            before,
        ).skip(offset),
        visible_chars(after) == visible_chars(inserted).take(offset) + visible_chars(inserted).skip(
            offset + text.len(),
        ),
    ensures
        visible_chars(after) == visible_chars(before),
{
    let vb = visible_chars(before);
    let vi = visible_chars(inserted);
    assert(vi.take(offset) =~= vb.take(offset));
    assert(vi.skip(offset + text.len()) =~= vb.skip(offset));
    assert(vb =~= vb.take(offset) + vb.skip(offset));
}

} // verus!
