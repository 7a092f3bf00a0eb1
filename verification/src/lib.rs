//! The runs of a collaborative text document.
//!
//! Every replica of the document keeps the text as a sequence of runs: spans
//! of characters that one replica inserted at one place. Deleted characters
//! stay in their runs, marked deleted, so that every replica can still find
//! them. [`run_tree::RunTree`] inserts and deletes text by visible offset and
//! reports what it did to the runs, so that the same edit can be sent to the
//! other replicas.

use vstd::prelude::*;

pub mod gtree;
pub mod range;
pub mod replica;
pub mod run_order;
pub mod run_tree;
pub mod summary;
pub mod text;

verus! {

} // verus!
