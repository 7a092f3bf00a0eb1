//! Patches between the visible lengths a run contributes.

use vstd::prelude::*;

use crate::replica::Length;

verus! {

/// The change between two summaries of a run: the visible length it gains or loses.
#[derive(Debug, Clone, Copy, PartialEq, Eq, Structural)]
pub enum Diff {
    Add(Length),
    Subtract(Length),
}

/// What applying `patch` to `summary` yields, as an integer.
pub open spec fn patched(summary: int, patch: Diff) -> int {
    match patch {
        Diff::Add(add) => summary + add,
        Diff::Subtract(sub) => summary - sub,
    }
}

/// The patch that turns the summary `from` into `to`.
pub open spec fn diff_model(from: Length, to: Length) -> Diff {
    if from < to {
        Diff::Add((to - from) as usize)
    } else {
        Diff::Subtract((from - to) as usize)
    }
}

/// The summary of nothing.
pub fn empty() -> (n: Length)
    ensures
        n == 0,
{
    0
}

/// The patch that turns the summary `from` into `to`.
pub fn diff(from: Length, to: Length) -> (patch: Diff)
    ensures
        patch == diff_model(from, to),
{
    if from < to {
        Diff::Add(to - from)
    } else {
        Diff::Subtract(from - to)
    }
}

/// Applies `patch` to a summary.
pub fn apply_diff(summary: &mut Length, patch: Diff)
    requires
        0 <= patched(*old(summary) as int, patch) <= usize::MAX,
    ensures
        *final(summary) == patched(*old(summary) as int, patch),
{
    match patch {
        Diff::Add(add) => *summary = *summary + add,
        Diff::Subtract(sub) => *summary = *summary - sub,
    }
}

/// Applying the patch from `from` to `to` onto any summary moves it by
/// `to - from`; applied to `from` itself, it gives `to`.
pub proof fn lemma_diff_then_apply(from: Length, to: Length, summary: int)
    ensures
        patched(summary, diff_model(from, to)) == summary - from + to,
        patched(from as int, diff_model(from, to)) == to,
{
}

} // verus!
