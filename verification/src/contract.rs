//! The two foundational interfaces: completion sequences and single-value
//! completion operations.
//!
//! Both interfaces carry a mathematical model.  A sequence is modelled by
//! `yielded()`, the items it has produced so far, oldest first; a single
//! poll may extend that history by at most one item.  A single-value
//! operation is modelled by `may_finish(v)`, the set of outcomes it can
//! still finish with; polling never enlarges that set.  On top of the
//! model that every implementation shares, each implementation defines its
//! own transition relation `step`, which states exactly what one poll of
//! that concrete type does; `poll`/`poll_next` guarantee that the relation
//! holds between the state before the call, the state after it, and the
//! result.
//!
//! The completion contract itself — after a `Pending` result the operation
//! must be driven on, not discarded — is an obligation on the caller that
//! no type system checks here; it is documented on
//! [`crate::poll::Poll::Pending`] and [`crate::poll::PollNext::Pending`].

use vstd::prelude::*;

use crate::poll::{Poll, PollNext};

verus! {

/// Everything one `poll_next` call on a well-formed sequence may do: the
/// implementation's own transition relation together with the history,
/// fuel and well-formedness guarantees that every poll gives.  Chains of
/// this relation are how an outer adapter's contract hands a caller the
/// inner sequence's whole evolution.
pub open spec fn transition<S: CompletionStream>(pre: S, post: S, r: PollNext<S::Item>) -> bool {
    &&& pre.wf()
    &&& post.wf()
    &&& pre.step(post, r)
    &&& (r is Pending ==> post.yielded() == pre.yielded() && post.fuel() < pre.fuel())
    &&& (r is Item ==> post.yielded() == pre.yielded().push(r->Item_0) && post.fuel() < pre.fuel())
    &&& (r is Ended ==> post.yielded() == pre.yielded() && post.fuel() <= pre.fuel())
}

/// The sequence has just reported its end: its state is the outcome of a
/// poll that returned `Ended`.  For a concrete source this forces the
/// elements to be exhausted; the end-cases of the terminal reductions and
/// of the draining adapters all promise it.
pub open spec fn ended_step<S: CompletionStream>(post: S) -> bool {
    exists|pre: S| #[trigger] transition(pre, post, PollNext::Ended)
}

/// A finite run of polls: `states` are the successive sequence states,
/// `results` what each poll returned.
pub open spec fn step_chain<S: CompletionStream>(
    states: Seq<S>,
    results: Seq<PollNext<S::Item>>,
) -> bool {
    &&& states.len() == results.len() + 1
    &&& forall|i: int|
        0 <= i < results.len() ==> transition(states[i], states[i + 1], #[trigger] results[i])
}

/// The sequence evolved from `pre` to `post` by some finite run of its
/// own polls — and by nothing else.  An adapter that drives its inner
/// sequence through an internal loop promises this of every outer poll,
/// so a caller can recover the inner sequence's behaviour step by step.
pub open spec fn reaches<S: CompletionStream>(pre: S, post: S) -> bool {
    exists|states: Seq<S>, results: Seq<PollNext<S::Item>>|
        #![auto]
        step_chain(states, results) && states.first() == pre && states.last() == post
}

/// A sequence reaches itself by the empty run.
pub proof fn lemma_reaches_refl<S: CompletionStream>(s: S)
    ensures
        reaches(s, s),
{
    let states = seq![s];
    let results = Seq::<PollNext<S::Item>>::empty();
    assert(step_chain(states, results));
    assert(states.first() == s && states.last() == s);
}

/// One more poll extends a run.
pub proof fn lemma_reaches_extend<S: CompletionStream>(a: S, b: S, c: S, r: PollNext<S::Item>)
    requires
        reaches(a, b),
        transition(b, c, r),
    ensures
        reaches(a, c),
{
    let (states, results) = choose|states: Seq<S>, results: Seq<PollNext<S::Item>>|
        #![auto]
        step_chain(states, results) && states.first() == a && states.last() == b;
    let states2 = states.push(c);
    let results2 = results.push(r);
    assert(step_chain(states2, results2)) by {
        assert forall|i: int|
            0 <= i < results2.len() implies transition(
            states2[i],
            states2[i + 1],
            #[trigger] results2[i],
        ) by {
            if i < results.len() {
                assert(transition(states[i], states[i + 1], results[i]));
                assert(states2[i] == states[i]);
                assert(states2[i + 1] == states[i + 1]);
                assert(results2[i] == results[i]);
            } else {
                assert(states2[i] == states.last());
                assert(states2[i + 1] == c);
                assert(results2[i] == r);
            }
        }
    }
    assert(states2.first() == a);
    assert(states2.last() == c);
}

/// Everything one `poll` call on a well-formed, unfinished single-value
/// operation may do; the single-value counterpart of [`transition`].  An
/// adapter that owns such an operation promises, of every outer poll,
/// that the operation either advanced by this relation or finished — it
/// is never discarded mid-flight.
pub open spec fn transition_f<F: CompletionFuture>(pre: F, post: F, r: Poll<F::Output>) -> bool {
    &&& pre.wf()
    &&& post.wf()
    &&& !pre.done()
    &&& pre.step(post, r)
    &&& (r is Pending ==> !post.done() && post.fuel() < pre.fuel() && (forall|v: F::Output|
        #[trigger] post.may_finish(v) ==> pre.may_finish(v)))
    &&& (r is Finished ==> post.done() && pre.may_finish(r->Finished_0))
}

/// A single poll is a run of length one.
pub proof fn lemma_reaches_once<S: CompletionStream>(pre: S, post: S, r: PollNext<S::Item>)
    requires
        transition(pre, post, r),
    ensures
        reaches(pre, post),
{
    lemma_reaches_refl(pre);
    lemma_reaches_extend(pre, pre, post, r);
}

/// A completion-aware sequence of values.
///
/// Polling either reports `Pending` (no progress visible yet), `Item(v)`
/// (the next item), or `Ended` (no more items).  The model `yielded()`
/// records every item the sequence has produced; `poll_next` may only ever
/// append to it.  A sequence is *not* promised to be well behaved after
/// reporting `Ended`: it may be polled again and may even produce further
/// items.  [`crate::sequencing::Fuse`] turns any sequence into one that is
/// idempotently ended.
pub trait CompletionStream: Sized {
    /// The type of the items this sequence produces.
    type Item;

    /// Well-formedness of the state, established by every constructor and
    /// preserved by every poll.
    spec fn wf(&self) -> bool;

    /// The items this sequence has yielded so far, oldest first.
    spec fn yielded(&self) -> Seq<Self::Item>;

    /// An upper bound on how many more polls of this sequence can make
    /// progress: every poll that pends or yields an item strictly lowers
    /// it, and no poll raises it.  It is ghost bookkeeping only — nothing
    /// executable reads it — and it is what the termination of every drain
    /// loop in this crate rests on.
    spec fn fuel(&self) -> nat;

    /// The transition relation of this concrete sequence: what one
    /// `poll_next` call may do, relating the state before the call, the
    /// state after it, and the result.  Each implementation defines it
    /// openly, so callers that know the concrete type know exactly how it
    /// behaves.
    spec fn step(self, post: Self, r: PollNext<Self::Item>) -> bool;

    /// Drive the sequence towards its next item.
    ///
    /// Whatever comes back, the history of yielded items is extended by the
    /// returned item and by nothing else, and the implementation's `step`
    /// relation holds.
    fn poll_next(&mut self) -> (r: PollNext<Self::Item>)
        requires
            old(self).wf(),
        ensures
            final(self).wf(),
            old(self).step(*final(self), r),
            r is Pending ==> final(self).yielded() == old(self).yielded() && final(self).fuel()
                < old(self).fuel(),
            r is Item ==> final(self).yielded() == old(self).yielded().push(r->Item_0)
                && final(self).fuel() < old(self).fuel(),
            r is Ended ==> final(self).yielded() == old(self).yielded() && final(self).fuel()
                <= old(self).fuel(),
    ;
}

/// A completion-aware single-value operation.
///
/// Polling either reports `Pending` or `Finished(v)`; once finished, the
/// operation is spent (`done()`) and must not be polled again.  The model
/// `may_finish(v)` is the set of final values the operation can still
/// produce: a `Pending` poll may shrink it but never grow it, and the
/// finished value is always drawn from it.
pub trait CompletionFuture: Sized {
    /// The type of the final value.
    type Output;

    /// Well-formedness of the state, established by every constructor and
    /// preserved by every poll.
    spec fn wf(&self) -> bool;

    /// Whether the operation has finished.  A finished operation may not be
    /// polled again.
    spec fn done(&self) -> bool;

    /// The outcomes this operation may still finish with.
    spec fn may_finish(&self, v: Self::Output) -> bool;

    /// An upper bound on how many more polls this operation can absorb
    /// before it must finish; every `Pending` poll strictly lowers it.
    /// See [`CompletionStream::fuel`].
    spec fn fuel(&self) -> nat;

    /// The transition relation of this concrete operation, defined openly
    /// by each implementation; see [`CompletionStream::step`].
    spec fn step(self, post: Self, r: Poll<Self::Output>) -> bool;

    /// Drive the operation towards its final value.
    fn poll(&mut self) -> (r: Poll<Self::Output>)
        requires
            old(self).wf(),
            !old(self).done(),
        ensures
            final(self).wf(),
            old(self).step(*final(self), r),
            r is Pending ==> !final(self).done() && final(self).fuel() < old(self).fuel()
                && (forall|v: Self::Output|
                #[trigger] final(self).may_finish(v) ==> old(self).may_finish(v)),
            r is Finished ==> final(self).done() && old(self).may_finish(r->Finished_0),
    ;
}

} // verus!
