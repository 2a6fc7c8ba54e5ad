//! Results of polling a completion operation or a completion sequence.

use vstd::prelude::*;

verus! {

/// Result of polling a single-value completion operation.
pub enum Poll<T> {
    /// The operation has not finished yet.  The caller must keep driving it:
    /// discarding a completion operation after a `Pending` poll, without
    /// polling it to completion first, violates the completion contract.
    Pending,
    /// The operation finished with its final value.  It must not be polled
    /// again.
    Finished(T),
}

/// Result of polling a completion sequence for its next item.
pub enum PollNext<T> {
    /// The next item is not ready yet.  The caller must keep driving the
    /// sequence: the item production currently mid-flight may not be
    /// abandoned.
    Pending,
    /// The next item of the sequence.
    Item(T),
    /// The sequence has no more items.  A well-behaved sequence keeps
    /// reporting `Ended` afterwards, but only [`crate::sequencing::Fuse`]
    /// guarantees that of an arbitrary sequence.
    Ended,
}

} // verus!
