//! Errors reported for calls that the engine refuses.
use vstd::prelude::*;

verus! {

/// A call that the engine refuses. The engine is left as it was.
#[derive(Debug, Clone, Copy, PartialEq, Eq, Structural)]
pub enum UsageError {
    /// A replacement was asked for a range of length zero. Text is inserted
    /// at a single offset with `append_left` or `prepend_right`.
    EmptyRange,
    /// The range ends before it starts.
    InvertedRange,
    /// An offset lies behind the end of the source.
    OutOfBounds,
    /// An offset lies strictly inside a chunk whose content has been
    /// replaced. Such a chunk cannot be split.
    EditedChunk,
}

} // verus!
