use vstd::prelude::*;

verus! {

/// Why an operation of the editing core was rejected.
///
/// Every rejection leaves the prior state intact, except
/// `PartialMultiBufferFailure`, which reports edits that were committed to
/// some member buffers while others refused theirs.
#[derive(Clone, Debug, PartialEq, Eq)]
pub enum Error {
    /// A range is reversed, reaches behind the text or overlaps another
    /// range of the same batch.
    InvalidRange,
    /// A single edit span is not contained in one excerpt.
    CrossExcerptEdit,
    /// A fold request intersects an existing fold.
    OverlappingFold,
    /// A selection transaction was requested while another one was open.
    ReentrantChange,
    /// Some member buffers took their edits and others refused them. Both
    /// lists hold the indices of member buffers in ascending order.
    PartialMultiBufferFailure { succeeded: Vec<usize>, failed: Vec<usize> },
}

} // verus!
