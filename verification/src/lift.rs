//! Ordinary, freely-droppable sequences, and their lift into completion
//! sequences.
//!
//! An ordinary [`Stream`] has the same polling interface and the same model
//! as a [`CompletionStream`], but none of the completion obligation: its
//! owner may drop it at any time, even directly after a `Pending` poll.
//! That freedom is a strictly stronger guarantee than the completion
//! contract demands of a caller, so any ordinary sequence can be wrapped
//! into a completion sequence by a pure pass-through, [`MustComplete`].

use vstd::prelude::*;

use crate::contract::CompletionStream;
use crate::poll::PollNext;

verus! {

/// Everything one `poll_next` call on a well-formed ordinary sequence may
/// do; the counterpart of [`crate::contract::transition`] for the
/// droppable side of the bridge.
pub open spec fn stream_transition<S: Stream>(pre: S, post: S, r: PollNext<S::Item>) -> bool {
    &&& pre.wf()
    &&& post.wf()
    &&& pre.step(post, r)
    &&& (r is Pending ==> post.yielded() == pre.yielded() && post.fuel() < pre.fuel())
    &&& (r is Item ==> post.yielded() == pre.yielded().push(r->Item_0) && post.fuel() < pre.fuel())
    &&& (r is Ended ==> post.yielded() == pre.yielded() && post.fuel() <= pre.fuel())
}

/// An ordinary asynchronous sequence, freely droppable at any point.
///
/// The model is the same as for [`CompletionStream`]: `yielded()` is the
/// history of items produced so far, and `step` is the transition relation
/// the concrete implementation defines openly.
pub trait Stream: Sized {
    /// The type of the items this sequence produces.
    type Item;

    /// Well-formedness of the state, established by every constructor and
    /// preserved by every poll.
    spec fn wf(&self) -> bool;

    /// The items this sequence has yielded so far, oldest first.
    spec fn yielded(&self) -> Seq<Self::Item>;

    /// An upper bound on how many more polls of this sequence can make
    /// progress; see [`CompletionStream::fuel`].
    spec fn fuel(&self) -> nat;

    /// The transition relation of this concrete sequence; see
    /// [`CompletionStream::step`].
    spec fn step(self, post: Self, r: PollNext<Self::Item>) -> bool;

    /// Drive the sequence towards its next item.
    fn poll_next(&mut self) -> (r: PollNext<Self::Item>)
        requires
            old(self).wf(),
        ensures
            final(self).wf(),
            old(self).step(*final(self), r),
            r is Pending ==> final(self).yielded() == old(self).yielded() && final(self).fuel()
                < old(self).fuel(),
            r is Item ==> final(self).yielded() == old(self).yielded().push(r->Item_0)
                && final(self).fuel() < old(self).fuel(),
            r is Ended ==> final(self).yielded() == old(self).yielded() && final(self).fuel()
                <= old(self).fuel(),
    ;
}

/// A completion sequence wrapping an ordinary [`Stream`].
///
/// Polling is a direct pass-through.  The wrapper adds no behaviour; it
/// only re-labels the sequence with the completion contract, which the
/// inner sequence satisfies trivially because it tolerates being dropped
/// at any point.
pub struct MustComplete<S: Stream> {
    /// The wrapped ordinary sequence.
    pub stream: S,
}

impl<S: Stream> CompletionStream for MustComplete<S> {
    type Item = S::Item;

    open spec fn wf(&self) -> bool {
        self.stream.wf()
    }

    open spec fn yielded(&self) -> Seq<S::Item> {
        self.stream.yielded()
    }

    open spec fn fuel(&self) -> nat {
        self.stream.fuel()
    }

    open spec fn step(self, post: Self, r: PollNext<S::Item>) -> bool {
        stream_transition(self.stream, post.stream, r)
    }

    fn poll_next(&mut self) -> (r: PollNext<S::Item>) {
        self.stream.poll_next()
    }
}

/// Chainable construction of [`MustComplete`] from any ordinary sequence.
pub trait StreamExt: Stream {
    /// Lift this ordinary sequence into a completion sequence.
    ///
    /// The lift is a pure pass-through: the result yields exactly what the
    /// wrapped sequence yields.
    fn must_complete(self) -> (r: MustComplete<Self>)
        ensures
            r == (MustComplete { stream: self }),
    {
        MustComplete { stream: self }
    }
}

impl<S: Stream> StreamExt for S {
}

} // verus!
