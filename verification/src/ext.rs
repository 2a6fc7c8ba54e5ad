//! Chainable construction of every adapter and reduction, for any
//! completion sequence.
//!
//! Each combinator consumes its receiver — ownership of the inner
//! sequence is exclusive and transferred at construction — and returns a
//! value of the adapter's own type, so combinators compose without
//! erasure.  The reductions that in a borrowing setting would leave the
//! sequence with the caller (`next`, `nth`, `all`, `any`) consume it here
//! too; they give it back through their `into_inner`.

use vstd::prelude::*;

use crate::contract::{CompletionFuture, CompletionStream};
use crate::reduce::{All, Any, Collect, CollectOption, CollectResult, Count, Fold, ForEach, Last, Next, Nth};
use crate::sequencing::{Chain, Fuse, Skip, StepBy, Take};
use crate::then::{then_fn_ok, Then};
use crate::transform::{Cloned, Copied, Filter, FilterMap, Mapped, SkipWhile, TakeWhile};

verus! {

/// Combinators on completion sequences, as chainable calls.
pub trait CompletionStreamExt: CompletionStream {
    /// Resolve to the next item of this sequence; see [`Next`].
    fn next(self) -> (r: Next<Self>)
        requires
            self.wf(),
        ensures
            r.wf(),
            !r.done(),
            r.stream == self,
            r.pulled() == Seq::<Self::Item>::empty(),
    {
        Next::new(self)
    }

    /// Count the items of this sequence; see [`Count`].
    fn count(self) -> (r: Count<Self>)
        requires
            self.wf(),
        ensures
            r.wf(),
            !r.done(),
            r.stream == self,
            r.pulled() == Seq::<Self::Item>::empty(),
    {
        Count::new(self)
    }

    /// Resolve to the last item of this sequence; see [`Last`].
    fn last(self) -> (r: Last<Self>)
        requires
            self.wf(),
        ensures
            r.wf(),
            !r.done(),
            r.stream == self,
            r.pulled() == Seq::<Self::Item>::empty(),
    {
        Last::new(self)
    }

    /// Resolve to the item at position `n` from here on; see [`Nth`].
    fn nth(self, n: usize) -> (r: Nth<Self>)
        requires
            self.wf(),
        ensures
            r.wf(),
            !r.done(),
            r.stream == self,
            r.pulled() == Seq::<Self::Item>::empty(),
            r.quota@ == n,
    {
        Nth::new(self, n)
    }

    /// Keep every `step`-th item, starting with the first; see
    /// [`StepBy`].  A zero step is a usage error, excluded up front.
    fn step_by(self, step: usize) -> (r: StepBy<Self>)
        requires
            self.wf(),
            step >= 1,
        ensures
            r.wf(),
            r.yielded() == Seq::<Self::Item>::empty(),
            r.stream == self,
            r.stride == step,
    {
        StepBy::new(self, step)
    }

    /// Follow this sequence with another; see [`Chain`].
    fn chain<U: CompletionStream<Item = Self::Item>>(self, other: U) -> (r: Chain<Self, U>)
        requires
            self.wf(),
            other.wf(),
        ensures
            r.wf(),
            r.yielded() == Seq::<Self::Item>::empty(),
            r.first == self,
            r.second == other,
            !r.first_done,
    {
        Chain::new(self, other)
    }

    /// Send every item through a function; see [`Mapped`].
    fn map<U, F: Fn(Self::Item) -> U>(self, f: F) -> (r: Mapped<Self, U, F>)
        requires
            self.wf(),
            forall|x: Self::Item| #[trigger] call_requires(f, (x,)),
        ensures
            r.wf(),
            r.yielded() == Seq::<U>::empty(),
            r.stream == self,
            r.f == f,
    {
        Mapped::new(self, f)
    }

    /// Drive, for every item, the single-value operation a function
    /// makes from it, and yield its value; see [`Then`].
    fn then<Fut: CompletionFuture, F: Fn(Self::Item) -> Fut>(self, f: F) -> (r: Then<
        Self,
        F,
        Fut,
    >)
        requires
            self.wf(),
            forall|x: Self::Item| #[trigger] call_requires(f, (x,)),
            exists|k: nat| then_fn_ok::<Self::Item, Fut, F>(f, k),
        ensures
            r.wf(),
            r.yielded() == Seq::<Fut::Output>::empty(),
            r.stream == self,
            r.f == f,
            r.in_flight is None,
    {
        Then::new(self, f)
    }

    /// Call a function on every item; see [`ForEach`].
    fn for_each<F: Fn(Self::Item)>(self, f: F) -> (r: ForEach<Self, F>)
        requires
            self.wf(),
            forall|x: Self::Item| #[trigger] call_requires(f, (x,)),
        ensures
            r.wf(),
            !r.done(),
            r.stream == self,
            r.f == f,
            r.pulled() == Seq::<Self::Item>::empty(),
    {
        ForEach::new(self, f)
    }

    /// Keep the items a predicate accepts; see [`Filter`].
    fn filter<F: Fn(&Self::Item) -> bool>(self, f: F) -> (r: Filter<Self, F>)
        requires
            self.wf(),
            forall|x: Self::Item| #[trigger] call_requires(f, (&x,)),
        ensures
            r.wf(),
            r.yielded() == Seq::<Self::Item>::empty(),
            r.stream == self,
            r.f == f,
    {
        Filter::new(self, f)
    }

    /// Keep and map the items on which a function returns a value; see
    /// [`FilterMap`].
    fn filter_map<U, F: Fn(Self::Item) -> Option<U>>(self, f: F) -> (r: FilterMap<Self, U, F>)
        requires
            self.wf(),
            forall|x: Self::Item| #[trigger] call_requires(f, (x,)),
        ensures
            r.wf(),
            r.yielded() == Seq::<U>::empty(),
            r.stream == self,
            r.f == f,
    {
        FilterMap::new(self, f)
    }

    /// Discard leading items while a predicate holds; see [`SkipWhile`].
    fn skip_while<F: Fn(&Self::Item) -> bool>(self, f: F) -> (r: SkipWhile<Self, F>)
        requires
            self.wf(),
            forall|x: Self::Item| #[trigger] call_requires(f, (&x,)),
        ensures
            r.wf(),
            r.yielded() == Seq::<Self::Item>::empty(),
            r.stream == self,
            r.f == f,
            r.skipping,
    {
        SkipWhile::new(self, f)
    }

    /// Pass items through while a predicate holds, then end; see
    /// [`TakeWhile`].
    fn take_while<F: Fn(&Self::Item) -> bool>(self, f: F) -> (r: TakeWhile<Self, F>)
        requires
            self.wf(),
            forall|x: Self::Item| #[trigger] call_requires(f, (&x,)),
        ensures
            r.wf(),
            r.yielded() == Seq::<Self::Item>::empty(),
            r.stream == self,
            r.f == f,
            !r.done,
    {
        TakeWhile::new(self, f)
    }

    /// Discard the first `n` items; see [`Skip`].
    fn skip(self, n: usize) -> (r: Skip<Self>)
        requires
            self.wf(),
        ensures
            r.wf(),
            r.yielded() == Seq::<Self::Item>::empty(),
            r.stream == self,
            r.to_skip == n,
            r.quota@ == n,
    {
        Skip::new(self, n)
    }

    /// Pass through at most the first `n` items; see [`Take`].
    fn take(self, n: usize) -> (r: Take<Self>)
        requires
            self.wf(),
        ensures
            r.wf(),
            r.yielded() == Seq::<Self::Item>::empty(),
            r.stream == self,
            r.left == n,
            r.quota@ == n,
    {
        Take::new(self, n)
    }

    /// Make the first end report permanent; see [`Fuse`].
    fn fuse(self) -> (r: Fuse<Self>)
        requires
            self.wf(),
        ensures
            r.wf(),
            r.yielded() == Seq::<Self::Item>::empty(),
            r.stream == self,
            !r.done,
    {
        Fuse::new(self)
    }

    /// Copy every item out of its reference; see [`Copied`].
    fn copied<'a, T: Copy + 'a>(self) -> (r: Copied<'a, T, Self>) where
        Self: CompletionStream<Item = &'a T>,

        requires
            self.wf(),
        ensures
            r.wf(),
            r.yielded() == Seq::<T>::empty(),
            r.stream == self,
    {
        Copied::new(self)
    }

    /// Clone every item out of its reference; see [`Cloned`].
    fn cloned<'a, T: Clone + 'a>(self) -> (r: Cloned<'a, T, Self>) where
        Self: CompletionStream<Item = &'a T>,

        requires
            self.wf(),
        ensures
            r.wf(),
            r.yielded() == Seq::<T>::empty(),
            r.stream == self,
    {
        Cloned::new(self)
    }

    /// Gather every item into a vector; see [`Collect`].
    fn collect(self) -> (r: Collect<Self>)
        requires
            self.wf(),
        ensures
            r.wf(),
            !r.done(),
            r.stream == self,
            r.pulled() == Seq::<Self::Item>::empty(),
    {
        Collect::new(self)
    }

    /// Accumulate a value over the sequence; see [`Fold`].
    fn fold<T, F: Fn(T, Self::Item) -> T>(self, init: T, f: F) -> (r: Fold<Self, T, F>)
        requires
            self.wf(),
            forall|a: T, x: Self::Item| #[trigger] call_requires(f, (a, x)),
        ensures
            r.wf(),
            !r.done(),
            r.stream == self,
            r.f == f,
            r.init@ == init,
            r.pulled() == Seq::<Self::Item>::empty(),
    {
        Fold::new(self, init, f)
    }

    /// Resolve to whether every item satisfies a predicate; see [`All`].
    fn all<F: Fn(Self::Item) -> bool>(self, f: F) -> (r: All<Self, F>)
        requires
            self.wf(),
            forall|x: Self::Item| #[trigger] call_requires(f, (x,)),
        ensures
            r.wf(),
            !r.done(),
            r.stream == self,
            r.f == f,
            r.pulled() == Seq::<Self::Item>::empty(),
    {
        All::new(self, f)
    }

    /// Resolve to whether some item satisfies a predicate; see [`Any`].
    fn any<F: Fn(Self::Item) -> bool>(self, f: F) -> (r: Any<Self, F>)
        requires
            self.wf(),
            forall|x: Self::Item| #[trigger] call_requires(f, (x,)),
        ensures
            r.wf(),
            !r.done(),
            r.stream == self,
            r.f == f,
            r.pulled() == Seq::<Self::Item>::empty(),
    {
        Any::new(self, f)
    }
}

impl<S: CompletionStream> CompletionStreamExt for S {

}

/// Chainable construction of the short-circuiting gather, for sequences
/// of optional values; see [`CollectOption`].
pub trait CollectOptionExt<T>: CompletionStream<Item = Option<T>> {
    /// Gather the values into a vector, giving up at the first absent
    /// value.
    fn collect_option(self) -> (r: CollectOption<Self, T>)
        requires
            self.wf(),
        ensures
            r.wf(),
            !r.done(),
            r.stream == self,
            r.pulled() == Seq::<Option<T>>::empty(),
    {
        CollectOption::new(self)
    }
}

impl<T, S: CompletionStream<Item = Option<T>>> CollectOptionExt<T> for S {

}

/// Chainable construction of the short-circuiting gather, for sequences
/// of fallible values; see [`CollectResult`].
pub trait CollectResultExt<T, E>: CompletionStream<Item = Result<T, E>> {
    /// Gather the values into a vector, giving up at the first error.
    fn collect_result(self) -> (r: CollectResult<Self, T, E>)
        requires
            self.wf(),
        ensures
            r.wf(),
            !r.done(),
            r.stream == self,
            r.pulled() == Seq::<Result<T, E>>::empty(),
    {
        CollectResult::new(self)
    }
}

impl<T, E, S: CompletionStream<Item = Result<T, E>>> CollectResultExt<T, E> for S {

}

} // verus!
