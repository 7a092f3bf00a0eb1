# Runs of a collaborative text document

A verified library that keeps one replica's copy of a text document as a
sequence of runs, each a span of characters inserted by one replica at one
place. Deleted characters stay in their runs as tombstones.

Layout of `src/`:

- `replica.rs`: replica identifiers and the insertion and Lamport clocks.
- `range.rs`: half-open ranges of offsets.
- `run_tree.rs`: anchors, runs (`EditRun`) and the run tree (`RunTree`) with
  its insertion and deletion, and the outcomes they report.
- `run_order.rs`: how runs inserted at the same anchor are ordered.
- `gtree.rs`: the store of runs in document order, with stable handles
  (`LeafIdx`) and the visible length kept up to date.
- `summary.rs`: patches between the visible lengths of a run.
- `text.rs`: the document as a sequence of characters, and the facts that
  tie insertion and deletion to it.

`app/` renders runs and anchors for debugging.
