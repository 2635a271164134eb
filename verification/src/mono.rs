use vstd::prelude::*;

verus! {

/// Marks an index that has not been set.
pub const NULL_INDEX: usize = usize::MAX;

/// The run of vertices `i ..= j` of a coordinate sequence that one
/// monotone chain (or one edge, or a whole sequence) covers.
#[derive(Copy, Clone, Debug, PartialEq, Eq, Structural)]
pub struct MonoSpan {
    pub i: usize,
    pub j: usize,
}

impl MonoSpan {
    /// A span with both ends unset.
    pub fn new_mono() -> (r: MonoSpan)
        ensures
            r == (MonoSpan { i: NULL_INDEX, j: NULL_INDEX }),
    {
        MonoSpan { i: NULL_INDEX, j: NULL_INDEX }
    }

    /// The span `i ..= j`.
    pub fn new_mono_ij(i: usize, j: usize) -> (r: MonoSpan)
        ensures
            r == (MonoSpan { i, j }),
    {
        MonoSpan { i, j }
    }

    /// Number of edges between the two ends.
    pub open spec fn edges(self) -> int {
        self.j - self.i
    }

    /// Whether vertex `v` lies in the span, ends included.
    pub open spec fn holds(self, v: int) -> bool {
        self.i <= v <= self.j
    }
}

} // verus!
