//! Half-open ranges of offsets.

use vstd::prelude::*;

verus! {

/// A half-open range of offsets, `start..end`.
#[derive(Clone, Copy, Debug, PartialEq, Eq, Structural)]
pub struct Range {
    pub start: usize,
    pub end: usize,
}

impl Range {
    /// Builds the range `start..end`.
    pub fn new(start: usize, end: usize) -> (r: Range)
        ensures
            r.start == start,
            r.end == end,
    {
        Range { start, end }
    }

    /// Number of offsets in the range; zero when it runs backwards.
    pub fn len(&self) -> (l: usize)
        ensures
            self.start <= self.end ==> l == self.end - self.start,
            self.start > self.end ==> l == 0,
    {
        if self.start <= self.end {
            self.end - self.start
        } else {
            0
        }
    }

    /// Whether the range holds no offset.
    pub fn is_empty(&self) -> (b: bool)
        ensures
            b == (self.end <= self.start),
    {
        self.end <= self.start
    }

    /// The range moved right by `by`.
    pub fn shifted(&self, by: usize) -> (r: Range)
        requires
            self.start + by <= usize::MAX,
            self.end + by <= usize::MAX,
        ensures
            r.start == self.start + by,
            r.end == self.end + by,
    {
        Range { start: self.start + by, end: self.end + by }
    }
}

} // verus!
