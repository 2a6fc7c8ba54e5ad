//! Terminal reductions: single-value completion operations that own a
//! sequence and drive it until one final value is decided.
//!
//! Each reduction is a [`CompletionFuture`].  Its `step` relation states
//! what the finished value is in terms of the items the sequence produced
//! since the reduction took it over (`pulled`); that the sequence evolved
//! only by a run of its own polls (`reaches`); that an exhaustion-decided
//! finish comes only once the sequence has actually reported its end
//! (`ended_step`); and — for the short-circuiting reductions — that
//! nothing was pulled past the item that decided the outcome.

use vstd::assert_seqs_equal;
use vstd::prelude::*;

use crate::contract::{ended_step, lemma_reaches_extend, lemma_reaches_refl, reaches, transition, CompletionFuture, CompletionStream};
use crate::poll::{Poll, PollNext};
use crate::seq_facts::{lemma_prefix_push, lemma_since_push, lemma_since_self, since};

verus! {

/// A run of a fold: `mids[i]` is the accumulator after combining the
/// first `i + 1` elements of `items`, each step being a possible result
/// of the combining function.
pub open spec fn fold_trace<T, I, F: Fn(T, I) -> T>(
    f: F,
    init: T,
    items: Seq<I>,
    mids: Seq<T>,
) -> bool {
    &&& mids.len() == items.len()
    &&& forall|i: int|
        0 <= i < items.len() ==> call_ensures(
            f,
            ((if i == 0 {
                init
            } else {
                mids[i - 1]
            }), items[i]),
            #[trigger] mids[i],
        )
}

/// The ways a fold can end: `folds_to(f, init, items, out)` holds when
/// `out` is a possible result of combining `init` with every element of
/// `items`, in order, through `f`.
pub open spec fn folds_to<T, I, F: Fn(T, I) -> T>(f: F, init: T, items: Seq<I>, out: T) -> bool {
    exists|mids: Seq<T>|
        #![auto]
        fold_trace(f, init, items, mids) && out == (if items.len() == 0 {
            init
        } else {
            mids.last()
        })
}

/// The next item of a sequence, as a single-value operation: finishes
/// with the first item the sequence produces from now on, or with nothing
/// if the sequence ends first.
pub struct Next<S: CompletionStream> {
    /// The sequence being driven.
    pub stream: S,
    /// Whether the operation has finished.
    pub finished: bool,
    /// The sequence's history at takeover.
    pub base: Ghost<Seq<S::Item>>,
}

impl<S: CompletionStream> Next<S> {
    /// Resolve to the next item of `stream`.
    pub fn new(stream: S) -> (r: Next<S>)
        requires
            stream.wf(),
        ensures
            r.wf(),
            !r.done(),
            r.stream == stream,
            r.pulled() == Seq::<S::Item>::empty(),
    {
        let r = Next { base: Ghost(stream.yielded()), stream, finished: false };
        proof {
            lemma_since_self(r.stream.yielded());
        }
        r
    }

    /// The items the sequence has produced since takeover.
    pub open spec fn pulled(&self) -> Seq<S::Item> {
        since(self.stream.yielded(), self.base@)
    }

    /// Give the sequence back, for further use after the operation has
    /// finished.
    pub fn into_inner(self) -> (r: S)
        ensures
            r == self.stream,
    {
        self.stream
    }
}

impl<S: CompletionStream> CompletionFuture for Next<S> {
    type Output = Option<S::Item>;

    open spec fn wf(&self) -> bool {
        &&& self.stream.wf()
        &&& self.base@.is_prefix_of(self.stream.yielded())
    }

    open spec fn done(&self) -> bool {
        self.finished
    }

    open spec fn may_finish(&self, v: Option<S::Item>) -> bool {
        // The outcome is whatever the very next event brings; nothing
        // narrows it ahead of time.
        true
    }

    open spec fn fuel(&self) -> nat {
        self.stream.fuel()
    }

    open spec fn step(self, post: Self, r: Poll<Option<S::Item>>) -> bool {
        &&& post.base == self.base
        &&& match r {
            Poll::Pending => transition(self.stream, post.stream, PollNext::Pending),
            Poll::Finished(out) => match out {
                Some(v) => transition(self.stream, post.stream, PollNext::Item(v)),
                None => transition(self.stream, post.stream, PollNext::Ended),
            },
        }
    }

    fn poll(&mut self) -> (r: Poll<Option<S::Item>>) {
        match self.stream.poll_next() {
            PollNext::Pending => Poll::Pending,
            PollNext::Item(v) => {
                self.finished = true;
                proof {
                    lemma_prefix_push(old(self).base@, old(self).stream.yielded(), v);
                }
                Poll::Finished(Some(v))
            },
            PollNext::Ended => {
                self.finished = true;
                Poll::Finished(None)
            },
        }
    }
}

/// The item at a given position of a sequence, counted from now on and
/// from zero: finishes with that item, or with nothing if the sequence
/// ends first.  The items before the requested position are discarded
/// silently.
pub struct Nth<S: CompletionStream> {
    /// The sequence being driven.
    pub stream: S,
    /// How many more items are to be discarded before the requested one.
    pub left: usize,
    /// Whether the operation has finished.
    pub finished: bool,
    /// The sequence's history at takeover.
    pub base: Ghost<Seq<S::Item>>,
    /// The requested position.
    pub quota: Ghost<int>,
}

impl<S: CompletionStream> Nth<S> {
    /// Resolve to the item of `stream` at position `n` from here on.
    pub fn new(stream: S, n: usize) -> (r: Nth<S>)
        requires
            stream.wf(),
        ensures
            r.wf(),
            !r.done(),
            r.stream == stream,
            r.pulled() == Seq::<S::Item>::empty(),
            r.quota@ == n,
    {
        let r = Nth {
            base: Ghost(stream.yielded()),
            stream,
            left: n,
            finished: false,
            quota: Ghost(n as int),
        };
        proof {
            lemma_since_self(r.stream.yielded());
        }
        r
    }

    /// The items the sequence has produced since takeover.
    pub open spec fn pulled(&self) -> Seq<S::Item> {
        since(self.stream.yielded(), self.base@)
    }

    /// Give the sequence back.
    pub fn into_inner(self) -> (r: S)
        ensures
            r == self.stream,
    {
        self.stream
    }
}

impl<S: CompletionStream> CompletionFuture for Nth<S> {
    type Output = Option<S::Item>;

    open spec fn wf(&self) -> bool {
        &&& self.stream.wf()
        &&& self.base@.is_prefix_of(self.stream.yielded())
        &&& !self.finished ==> self.pulled().len() + self.left == self.quota@
    }

    open spec fn done(&self) -> bool {
        self.finished
    }

    open spec fn may_finish(&self, v: Option<S::Item>) -> bool {
        // Both outcomes stay open until the requested position or the
        // end is reached; nothing narrows them ahead of time.
        true
    }

    open spec fn fuel(&self) -> nat {
        self.stream.fuel()
    }

    open spec fn step(self, post: Self, r: Poll<Option<S::Item>>) -> bool {
        &&& post.base == self.base
        &&& post.quota == self.quota
        &&& self.pulled().is_prefix_of(post.pulled())
        &&& reaches(self.stream, post.stream)
        &&& match r {
            Poll::Pending => post.pulled().len() + post.left == self.pulled().len() + self.left,
            Poll::Finished(out) => match out {
                // The requested position was reached: the finished item
                // sits exactly there, and nothing past it was pulled.
                Some(v) => post.pulled().len() == self.quota@ + 1 && post.pulled().last() == v,
                // The sequence ended before the requested position.
                None => post.pulled().len() <= self.quota@ && ended_step(post.stream),
            },
        }
    }

    fn poll(&mut self) -> (r: Poll<Option<S::Item>>) {
        proof {
            lemma_reaches_refl(self.stream);
        }
        loop
            invariant
                self.wf(),
                !self.finished,
                !old(self).finished,
                self.base == old(self).base,
                self.quota == old(self).quota,
                old(self).pulled().is_prefix_of(self.pulled()),
                self.pulled().len() + self.left == old(self).pulled().len() + old(self).left,
                self.stream.fuel() <= old(self).stream.fuel(),
                reaches(old(self).stream, self.stream),
            decreases self.stream.fuel(),
        {
            let ghost s1 = *self;
            match self.stream.poll_next() {
                PollNext::Pending => {
                    proof {
                        assert(transition(s1.stream, self.stream, PollNext::Pending));
                        lemma_reaches_extend(
                            old(self).stream,
                            s1.stream,
                            self.stream,
                            PollNext::Pending,
                        );
                    }
                    return Poll::Pending;
                },
                PollNext::Ended => {
                    proof {
                        assert(transition(s1.stream, self.stream, PollNext::Ended));
                        lemma_reaches_extend(
                            old(self).stream,
                            s1.stream,
                            self.stream,
                            PollNext::Ended,
                        );
                    }
                    self.finished = true;
                    return Poll::Finished(None);
                },
                PollNext::Item(v) => {
                    proof {
                        assert(transition(s1.stream, self.stream, PollNext::Item(v)));
                        lemma_reaches_extend(
                            old(self).stream,
                            s1.stream,
                            self.stream,
                            PollNext::Item(v),
                        );
                        lemma_since_push(s1.stream.yielded(), s1.base@, v);
                        lemma_prefix_push(s1.base@, s1.stream.yielded(), v);
                        assert(self.pulled() == s1.pulled().push(v));
                    }
                    if self.left == 0 {
                        self.finished = true;
                        return Poll::Finished(Some(v));
                    }
                    self.left = self.left - 1;
                },
            }
        }
    }
}

/// The number of items of a sequence: finishes, once the sequence ends,
/// with how many items it produced from takeover on.
///
/// The count is held in a machine word; in the untypical case of more
/// items than a machine word can count, it stays pegged at the largest
/// representable value.
pub struct Count<S: CompletionStream> {
    /// The sequence being driven.
    pub stream: S,
    /// The items counted so far.
    pub counted: usize,
    /// Whether the operation has finished.
    pub finished: bool,
    /// The sequence's history at takeover.
    pub base: Ghost<Seq<S::Item>>,
}

/// What the count of `n` items is: `n`, pegged at the largest value a
/// machine word holds.
pub open spec fn counted_value(n: nat) -> int {
    if n <= usize::MAX {
        n as int
    } else {
        usize::MAX as int
    }
}

impl<S: CompletionStream> Count<S> {
    /// Resolve to the number of items `stream` still produces.
    pub fn new(stream: S) -> (r: Count<S>)
        requires
            stream.wf(),
        ensures
            r.wf(),
            !r.done(),
            r.stream == stream,
            r.pulled() == Seq::<S::Item>::empty(),
    {
        let r = Count { base: Ghost(stream.yielded()), stream, counted: 0, finished: false };
        proof {
            lemma_since_self(r.stream.yielded());
        }
        r
    }

    /// The items the sequence has produced since takeover.
    pub open spec fn pulled(&self) -> Seq<S::Item> {
        since(self.stream.yielded(), self.base@)
    }
}

impl<S: CompletionStream> CompletionFuture for Count<S> {
    type Output = usize;

    open spec fn wf(&self) -> bool {
        &&& self.stream.wf()
        &&& self.base@.is_prefix_of(self.stream.yielded())
        &&& !self.finished ==> self.counted == counted_value(self.pulled().len())
    }

    open spec fn done(&self) -> bool {
        self.finished
    }

    open spec fn may_finish(&self, v: usize) -> bool {
        v >= counted_value(self.pulled().len())
    }

    open spec fn fuel(&self) -> nat {
        self.stream.fuel()
    }

    open spec fn step(self, post: Self, r: Poll<usize>) -> bool {
        &&& post.base == self.base
        &&& self.pulled().is_prefix_of(post.pulled())
        &&& reaches(self.stream, post.stream)
        &&& match r {
            Poll::Pending => true,
            // The count is the number of items produced before the end.
            Poll::Finished(c) => c == counted_value(post.pulled().len()) && ended_step(post.stream),
        }
    }

    fn poll(&mut self) -> (r: Poll<usize>) {
        proof {
            lemma_reaches_refl(self.stream);
        }
        loop
            invariant
                self.wf(),
                !self.finished,
                !old(self).finished,
                self.base == old(self).base,
                old(self).pulled().is_prefix_of(self.pulled()),
                self.stream.fuel() <= old(self).stream.fuel(),
                reaches(old(self).stream, self.stream),
            decreases self.stream.fuel(),
        {
            let ghost s1 = *self;
            match self.stream.poll_next() {
                PollNext::Pending => {
                    proof {
                        assert(transition(s1.stream, self.stream, PollNext::Pending));
                        lemma_reaches_extend(
                            old(self).stream,
                            s1.stream,
                            self.stream,
                            PollNext::Pending,
                        );
                    }
                    return Poll::Pending;
                },
                PollNext::Ended => {
                    proof {
                        assert(transition(s1.stream, self.stream, PollNext::Ended));
                        lemma_reaches_extend(
                            old(self).stream,
                            s1.stream,
                            self.stream,
                            PollNext::Ended,
                        );
                    }
                    self.finished = true;
                    return Poll::Finished(self.counted);
                },
                PollNext::Item(v) => {
                    proof {
                        assert(transition(s1.stream, self.stream, PollNext::Item(v)));
                        lemma_reaches_extend(
                            old(self).stream,
                            s1.stream,
                            self.stream,
                            PollNext::Item(v),
                        );
                        lemma_since_push(s1.stream.yielded(), s1.base@, v);
                        lemma_prefix_push(s1.base@, s1.stream.yielded(), v);
                        assert(self.pulled() == s1.pulled().push(v));
                    }
                    if self.counted < usize::MAX {
                        self.counted = self.counted + 1;
                    }
                },
            }
        }
    }
}

/// The last item of a sequence: finishes, once the sequence ends, with
/// the most recent item, or with nothing if no item came at all.
pub struct Last<S: CompletionStream> {
    /// The sequence being driven.
    pub stream: S,
    /// The most recent item seen.
    pub latest: Option<S::Item>,
    /// Whether the operation has finished.
    pub finished: bool,
    /// The sequence's history at takeover.
    pub base: Ghost<Seq<S::Item>>,
}

impl<S: CompletionStream> Last<S> {
    /// Resolve to the last item `stream` still produces.
    pub fn new(stream: S) -> (r: Last<S>)
        requires
            stream.wf(),
        ensures
            r.wf(),
            !r.done(),
            r.stream == stream,
            r.pulled() == Seq::<S::Item>::empty(),
    {
        let r = Last { base: Ghost(stream.yielded()), stream, latest: None, finished: false };
        proof {
            lemma_since_self(r.stream.yielded());
        }
        r
    }

    /// The items the sequence has produced since takeover.
    pub open spec fn pulled(&self) -> Seq<S::Item> {
        since(self.stream.yielded(), self.base@)
    }
}

impl<S: CompletionStream> CompletionFuture for Last<S> {
    type Output = Option<S::Item>;

    open spec fn wf(&self) -> bool {
        &&& self.stream.wf()
        &&& self.base@.is_prefix_of(self.stream.yielded())
        &&& !self.finished ==> self.latest == (if self.pulled().len() == 0 {
            None
        } else {
            Some(self.pulled().last())
        })
    }

    open spec fn done(&self) -> bool {
        self.finished
    }

    open spec fn may_finish(&self, v: Option<S::Item>) -> bool {
        // Once an item has arrived, an empty outcome is off the table.
        v is None ==> self.pulled().len() == 0
    }

    open spec fn fuel(&self) -> nat {
        self.stream.fuel()
    }

    open spec fn step(self, post: Self, r: Poll<Option<S::Item>>) -> bool {
        &&& post.base == self.base
        &&& self.pulled().is_prefix_of(post.pulled())
        &&& reaches(self.stream, post.stream)
        &&& match r {
            Poll::Pending => true,
            Poll::Finished(out) => ended_step(post.stream) && out == (if post.pulled().len() == 0 {
                None
            } else {
                Some(post.pulled().last())
            }),
        }
    }

    fn poll(&mut self) -> (r: Poll<Option<S::Item>>) {
        proof {
            lemma_reaches_refl(self.stream);
        }
        loop
            invariant
                self.wf(),
                !self.finished,
                !old(self).finished,
                self.base == old(self).base,
                old(self).pulled().is_prefix_of(self.pulled()),
                self.stream.fuel() <= old(self).stream.fuel(),
                reaches(old(self).stream, self.stream),
            decreases self.stream.fuel(),
        {
            let ghost s1 = *self;
            match self.stream.poll_next() {
                PollNext::Pending => {
                    proof {
                        assert(transition(s1.stream, self.stream, PollNext::Pending));
                        lemma_reaches_extend(
                            old(self).stream,
                            s1.stream,
                            self.stream,
                            PollNext::Pending,
                        );
                    }
                    return Poll::Pending;
                },
                PollNext::Ended => {
                    proof {
                        assert(transition(s1.stream, self.stream, PollNext::Ended));
                        lemma_reaches_extend(
                            old(self).stream,
                            s1.stream,
                            self.stream,
                            PollNext::Ended,
                        );
                    }
                    self.finished = true;
                    let out = self.latest.take();
                    return Poll::Finished(out);
                },
                PollNext::Item(v) => {
                    proof {
                        assert(transition(s1.stream, self.stream, PollNext::Item(v)));
                        lemma_reaches_extend(
                            old(self).stream,
                            s1.stream,
                            self.stream,
                            PollNext::Item(v),
                        );
                        lemma_since_push(s1.stream.yielded(), s1.base@, v);
                        lemma_prefix_push(s1.base@, s1.stream.yielded(), v);
                        assert(self.pulled() == s1.pulled().push(v));
                    }
                    self.latest = Some(v);
                },
            }
        }
    }
}

/// An accumulated value over a sequence: the accumulator starts at a
/// given value and is combined with every item, in arrival order, through
/// a user function; finishes with the accumulator once the sequence ends.
#[verifier::reject_recursive_types(T)]
pub struct Fold<S: CompletionStream, T, F: Fn(T, S::Item) -> T> {
    /// The sequence being driven.
    pub stream: S,
    /// The combining function.
    pub f: F,
    /// The current accumulator; present until the operation finishes.
    pub acc: Option<T>,
    /// Whether the operation has finished.
    pub finished: bool,
    /// The sequence's history at takeover.
    pub base: Ghost<Seq<S::Item>>,
    /// The starting accumulator.
    pub init: Ghost<T>,
    /// The accumulator after each combining step so far.
    pub mids: Ghost<Seq<T>>,
}

impl<S: CompletionStream, T, F: Fn(T, S::Item) -> T> Fold<S, T, F> {
    /// Resolve to `init` combined, through `f`, with every item `stream`
    /// still produces.
    pub fn new(stream: S, init: T, f: F) -> (r: Fold<S, T, F>)
        requires
            stream.wf(),
            forall|a: T, x: S::Item| #[trigger] call_requires(f, (a, x)),
        ensures
            r.wf(),
            !r.done(),
            r.stream == stream,
            r.f == f,
            r.init@ == init,
            r.pulled() == Seq::<S::Item>::empty(),
    {
        let r = Fold {
            base: Ghost(stream.yielded()),
            stream,
            init: Ghost(init),
            acc: Some(init),
            f,
            finished: false,
            mids: Ghost(Seq::empty()),
        };
        proof {
            lemma_since_self(r.stream.yielded());
        }
        r
    }

    /// The items the sequence has produced since takeover.
    pub open spec fn pulled(&self) -> Seq<S::Item> {
        since(self.stream.yielded(), self.base@)
    }

    /// The accumulator that the steps so far have reached.
    pub open spec fn current(&self) -> T {
        if self.mids@.len() == 0 {
            self.init@
        } else {
            self.mids@.last()
        }
    }
}

impl<S: CompletionStream, T, F: Fn(T, S::Item) -> T> CompletionFuture for Fold<S, T, F> {
    type Output = T;

    open spec fn wf(&self) -> bool {
        &&& self.stream.wf()
        &&& self.base@.is_prefix_of(self.stream.yielded())
        &&& forall|a: T, x: S::Item| #[trigger] call_requires(self.f, (a, x))
        &&& fold_trace(self.f, self.init@, self.pulled(), self.mids@)
        &&& !self.finished ==> self.acc == Some(self.current())
    }

    open spec fn done(&self) -> bool {
        self.finished
    }

    open spec fn may_finish(&self, v: T) -> bool {
        // With items still to come, the combining function can steer the
        // accumulator anywhere its results allow; nothing narrows the
        // outcome ahead of the end.  The finished value is pinned by
        // `step` instead.
        true
    }

    open spec fn fuel(&self) -> nat {
        self.stream.fuel()
    }

    open spec fn step(self, post: Self, r: Poll<T>) -> bool {
        &&& post.base == self.base
        &&& post.init == self.init
        &&& post.f == self.f
        &&& self.pulled().is_prefix_of(post.pulled())
        &&& reaches(self.stream, post.stream)
        &&& match r {
            Poll::Pending => true,
            // The result is the fold, in arrival order, of everything the
            // sequence produced before its end.
            Poll::Finished(out) => folds_to(self.f, self.init@, post.pulled(), out)
                && ended_step(post.stream),
        }
    }

    fn poll(&mut self) -> (r: Poll<T>) {
        proof {
            lemma_reaches_refl(self.stream);
        }
        loop
            invariant
                self.wf(),
                !self.finished,
                !old(self).finished,
                self.base == old(self).base,
                self.init == old(self).init,
                self.f == old(self).f,
                old(self).pulled().is_prefix_of(self.pulled()),
                self.stream.fuel() <= old(self).stream.fuel(),
                reaches(old(self).stream, self.stream),
            decreases self.stream.fuel(),
        {
            let ghost s1 = *self;
            match self.stream.poll_next() {
                PollNext::Pending => {
                    proof {
                        assert(transition(s1.stream, self.stream, PollNext::Pending));
                        lemma_reaches_extend(
                            old(self).stream,
                            s1.stream,
                            self.stream,
                            PollNext::Pending,
                        );
                    }
                    return Poll::Pending;
                },
                PollNext::Ended => {
                    proof {
                        assert(transition(s1.stream, self.stream, PollNext::Ended));
                        lemma_reaches_extend(
                            old(self).stream,
                            s1.stream,
                            self.stream,
                            PollNext::Ended,
                        );
                    }
                    self.finished = true;
                    match self.acc.take() {
                        Some(out) => {
                            proof {
                                assert(fold_trace(self.f, self.init@, self.pulled(), self.mids@)
                                    && out == (if self.pulled().len() == 0 {
                                    self.init@
                                } else {
                                    self.mids@.last()
                                }));
                            }
                            return Poll::Finished(out);
                        },
                        None => {
                            proof {
                                assert(false);
                            }
                            return Poll::Pending;
                        },
                    }
                },
                PollNext::Item(x) => {
                    proof {
                        assert(transition(s1.stream, self.stream, PollNext::Item(x)));
                        lemma_reaches_extend(
                            old(self).stream,
                            s1.stream,
                            self.stream,
                            PollNext::Item(x),
                        );
                        lemma_since_push(s1.stream.yielded(), s1.base@, x);
                        lemma_prefix_push(s1.base@, s1.stream.yielded(), x);
                        assert(self.pulled() == s1.pulled().push(x));
                    }
                    match self.acc.take() {
                        Some(a) => {
                            let next_acc = (self.f)(a, x);
                            self.mids = Ghost(self.mids@.push(next_acc));
                            self.acc = Some(next_acc);
                            proof {
                                assert forall|i: int| 0 <= i < self.pulled().len() implies
                                    call_ensures(
                                        self.f,
                                        ((if i == 0 {
                                            self.init@
                                        } else {
                                            self.mids@[i - 1]
                                        }), self.pulled()[i]),
                                        #[trigger] self.mids@[i],
                                    ) by {
                                    if i < self.pulled().len() - 1 {
                                        assert(self.mids@[i] == s1.mids@[i]);
                                    }
                                }
                            }
                        },
                        None => {
                            proof {
                                assert(false);
                            }
                            return Poll::Pending;
                        },
                    }
                },
            }
        }
    }
}

/// A traversal for its side effects: the user function is called once on
/// every item, in arrival order; finishes with nothing once the sequence
/// ends.
pub struct ForEach<S: CompletionStream, F: Fn(S::Item)> {
    /// The sequence being driven.
    pub stream: S,
    /// The function called on each item.
    pub f: F,
    /// Whether the operation has finished.
    pub finished: bool,
    /// The sequence's history at takeover.
    pub base: Ghost<Seq<S::Item>>,
}

impl<S: CompletionStream, F: Fn(S::Item)> ForEach<S, F> {
    /// Call `f` on every item `stream` still produces.
    pub fn new(stream: S, f: F) -> (r: ForEach<S, F>)
        requires
            stream.wf(),
            forall|x: S::Item| #[trigger] call_requires(f, (x,)),
        ensures
            r.wf(),
            !r.done(),
            r.stream == stream,
            r.f == f,
            r.pulled() == Seq::<S::Item>::empty(),
    {
        let r = ForEach { base: Ghost(stream.yielded()), stream, f, finished: false };
        proof {
            lemma_since_self(r.stream.yielded());
        }
        r
    }

    /// The items the sequence has produced since takeover.
    pub open spec fn pulled(&self) -> Seq<S::Item> {
        since(self.stream.yielded(), self.base@)
    }
}

impl<S: CompletionStream, F: Fn(S::Item)> CompletionFuture for ForEach<S, F> {
    type Output = ();

    open spec fn wf(&self) -> bool {
        &&& self.stream.wf()
        &&& self.base@.is_prefix_of(self.stream.yielded())
        &&& forall|x: S::Item| #[trigger] call_requires(self.f, (x,))
        &&& forall|i: int|
            0 <= i < self.pulled().len() ==> call_ensures(
                self.f,
                ((#[trigger] self.pulled()[i]),),
                (),
            )
    }

    open spec fn done(&self) -> bool {
        self.finished
    }

    open spec fn may_finish(&self, v: ()) -> bool {
        // The unit outcome carries no information to narrow.
        true
    }

    open spec fn fuel(&self) -> nat {
        self.stream.fuel()
    }

    open spec fn step(self, post: Self, r: Poll<()>) -> bool {
        &&& post.base == self.base
        &&& post.f == self.f
        &&& self.pulled().is_prefix_of(post.pulled())
        &&& reaches(self.stream, post.stream)
        &&& forall|i: int|
            0 <= i < post.pulled().len() ==> call_ensures(
                self.f,
                ((#[trigger] post.pulled()[i]),),
                (),
            )
        &&& r is Finished ==> ended_step(post.stream)
    }

    fn poll(&mut self) -> (r: Poll<()>) {
        proof {
            lemma_reaches_refl(self.stream);
        }
        loop
            invariant
                self.wf(),
                !self.finished,
                !old(self).finished,
                self.base == old(self).base,
                self.f == old(self).f,
                old(self).pulled().is_prefix_of(self.pulled()),
                self.stream.fuel() <= old(self).stream.fuel(),
                reaches(old(self).stream, self.stream),
            decreases self.stream.fuel(),
        {
            let ghost s1 = *self;
            match self.stream.poll_next() {
                PollNext::Pending => {
                    proof {
                        assert(transition(s1.stream, self.stream, PollNext::Pending));
                        lemma_reaches_extend(
                            old(self).stream,
                            s1.stream,
                            self.stream,
                            PollNext::Pending,
                        );
                    }
                    return Poll::Pending;
                },
                PollNext::Ended => {
                    proof {
                        assert(transition(s1.stream, self.stream, PollNext::Ended));
                        lemma_reaches_extend(
                            old(self).stream,
                            s1.stream,
                            self.stream,
                            PollNext::Ended,
                        );
                    }
                    self.finished = true;
                    return Poll::Finished(());
                },
                PollNext::Item(x) => {
                    proof {
                        assert(transition(s1.stream, self.stream, PollNext::Item(x)));
                        lemma_reaches_extend(
                            old(self).stream,
                            s1.stream,
                            self.stream,
                            PollNext::Item(x),
                        );
                        lemma_since_push(s1.stream.yielded(), s1.base@, x);
                        lemma_prefix_push(s1.base@, s1.stream.yielded(), x);
                        assert(self.pulled() == s1.pulled().push(x));
                    }
                    (self.f)(x);
                },
            }
        }
    }
}

/// Universal quantification over a sequence: finishes `false` at the
/// first item the predicate rejects, without pulling anything further;
/// finishes `true` once the sequence ends with every item accepted.  An
/// empty sequence gives `true`.
pub struct All<S: CompletionStream, F: Fn(S::Item) -> bool> {
    /// The sequence being driven.
    pub stream: S,
    /// The predicate.
    pub f: F,
    /// Whether the operation has finished.
    pub finished: bool,
    /// The sequence's history at takeover.
    pub base: Ghost<Seq<S::Item>>,
}

impl<S: CompletionStream, F: Fn(S::Item) -> bool> All<S, F> {
    /// Resolve to whether every item `stream` still produces satisfies
    /// `f`.
    pub fn new(stream: S, f: F) -> (r: All<S, F>)
        requires
            stream.wf(),
            forall|x: S::Item| #[trigger] call_requires(f, (x,)),
        ensures
            r.wf(),
            !r.done(),
            r.stream == stream,
            r.f == f,
            r.pulled() == Seq::<S::Item>::empty(),
    {
        let r = All { base: Ghost(stream.yielded()), stream, f, finished: false };
        proof {
            lemma_since_self(r.stream.yielded());
        }
        r
    }

    /// The items the sequence has produced since takeover.
    pub open spec fn pulled(&self) -> Seq<S::Item> {
        since(self.stream.yielded(), self.base@)
    }

    /// Give the sequence back.
    pub fn into_inner(self) -> (r: S)
        ensures
            r == self.stream,
    {
        self.stream
    }
}

impl<S: CompletionStream, F: Fn(S::Item) -> bool> CompletionFuture for All<S, F> {
    type Output = bool;

    open spec fn wf(&self) -> bool {
        &&& self.stream.wf()
        &&& self.base@.is_prefix_of(self.stream.yielded())
        &&& forall|x: S::Item| #[trigger] call_requires(self.f, (x,))
        &&& !self.finished ==> forall|i: int|
            0 <= i < self.pulled().len() ==> call_ensures(
                self.f,
                ((#[trigger] self.pulled()[i]),),
                true,
            )
    }

    open spec fn done(&self) -> bool {
        self.finished
    }

    open spec fn may_finish(&self, v: bool) -> bool {
        // A positive outcome is only still possible while every item
        // seen so far has been accepted.
        v ==> forall|i: int|
            0 <= i < self.pulled().len() ==> call_ensures(
                self.f,
                ((#[trigger] self.pulled()[i]),),
                true,
            )
    }

    open spec fn fuel(&self) -> nat {
        self.stream.fuel()
    }

    open spec fn step(self, post: Self, r: Poll<bool>) -> bool {
        &&& post.base == self.base
        &&& post.f == self.f
        &&& self.pulled().is_prefix_of(post.pulled())
        &&& reaches(self.stream, post.stream)
        &&& match r {
            Poll::Pending => true,
            Poll::Finished(out) => if out {
                // The sequence ended; every item was accepted.
                &&& ended_step(post.stream)
                &&& forall|i: int|
                    0 <= i < post.pulled().len() ==> call_ensures(
                        self.f,
                        ((#[trigger] post.pulled()[i]),),
                        true,
                    )
            } else {
                // The last pulled item was rejected, every earlier one
                // accepted: nothing past the deciding item was pulled.
                &&& post.pulled().len() > self.pulled().len()
                &&& call_ensures(self.f, (post.pulled().last(),), false)
                &&& forall|i: int|
                    0 <= i < post.pulled().len() - 1 ==> call_ensures(
                        self.f,
                        ((#[trigger] post.pulled()[i]),),
                        true,
                    )
            },
        }
    }

    fn poll(&mut self) -> (r: Poll<bool>) {
        proof {
            lemma_reaches_refl(self.stream);
        }
        loop
            invariant
                self.wf(),
                !self.finished,
                !old(self).finished,
                self.base == old(self).base,
                self.f == old(self).f,
                old(self).pulled().is_prefix_of(self.pulled()),
                self.stream.fuel() <= old(self).stream.fuel(),
                reaches(old(self).stream, self.stream),
            decreases self.stream.fuel(),
        {
            let ghost s1 = *self;
            match self.stream.poll_next() {
                PollNext::Pending => {
                    proof {
                        assert(transition(s1.stream, self.stream, PollNext::Pending));
                        lemma_reaches_extend(
                            old(self).stream,
                            s1.stream,
                            self.stream,
                            PollNext::Pending,
                        );
                    }
                    return Poll::Pending;
                },
                PollNext::Ended => {
                    proof {
                        assert(transition(s1.stream, self.stream, PollNext::Ended));
                        lemma_reaches_extend(
                            old(self).stream,
                            s1.stream,
                            self.stream,
                            PollNext::Ended,
                        );
                        assert forall|i: int| 0 <= i < old(self).pulled().len() implies
                            call_ensures(
                            old(self).f,
                            ((#[trigger] old(self).pulled()[i]),),
                            true,
                        ) by {
                            assert(old(self).pulled()[i] == self.pulled()[i]);
                            assert(call_ensures(self.f, (self.pulled()[i],), true));
                        }
                    }
                    self.finished = true;
                    return Poll::Finished(true);
                },
                PollNext::Item(x) => {
                    proof {
                        assert(transition(s1.stream, self.stream, PollNext::Item(x)));
                        lemma_reaches_extend(
                            old(self).stream,
                            s1.stream,
                            self.stream,
                            PollNext::Item(x),
                        );
                        lemma_since_push(s1.stream.yielded(), s1.base@, x);
                        lemma_prefix_push(s1.base@, s1.stream.yielded(), x);
                        assert(self.pulled() == s1.pulled().push(x));
                    }
                    if !(self.f)(x) {
                        self.finished = true;
                        return Poll::Finished(false);
                    }
                },
            }
        }
    }
}

/// Existential quantification over a sequence: finishes `true` at the
/// first item the predicate accepts, without pulling anything further;
/// finishes `false` once the sequence ends with every item rejected.  An
/// empty sequence gives `false`.
pub struct Any<S: CompletionStream, F: Fn(S::Item) -> bool> {
    /// The sequence being driven.
    pub stream: S,
    /// The predicate.
    pub f: F,
    /// Whether the operation has finished.
    pub finished: bool,
    /// The sequence's history at takeover.
    pub base: Ghost<Seq<S::Item>>,
}

impl<S: CompletionStream, F: Fn(S::Item) -> bool> Any<S, F> {
    /// Resolve to whether some item `stream` still produces satisfies
    /// `f`.
    pub fn new(stream: S, f: F) -> (r: Any<S, F>)
        requires
            stream.wf(),
            forall|x: S::Item| #[trigger] call_requires(f, (x,)),
        ensures
            r.wf(),
            !r.done(),
            r.stream == stream,
            r.f == f,
            r.pulled() == Seq::<S::Item>::empty(),
    {
        let r = Any { base: Ghost(stream.yielded()), stream, f, finished: false };
        proof {
            lemma_since_self(r.stream.yielded());
        }
        r
    }

    /// The items the sequence has produced since takeover.
    pub open spec fn pulled(&self) -> Seq<S::Item> {
        since(self.stream.yielded(), self.base@)
    }

    /// Give the sequence back.
    pub fn into_inner(self) -> (r: S)
        ensures
            r == self.stream,
    {
        self.stream
    }
}

impl<S: CompletionStream, F: Fn(S::Item) -> bool> CompletionFuture for Any<S, F> {
    type Output = bool;

    open spec fn wf(&self) -> bool {
        &&& self.stream.wf()
        &&& self.base@.is_prefix_of(self.stream.yielded())
        &&& forall|x: S::Item| #[trigger] call_requires(self.f, (x,))
        &&& !self.finished ==> forall|i: int|
            0 <= i < self.pulled().len() ==> call_ensures(
                self.f,
                ((#[trigger] self.pulled()[i]),),
                false,
            )
    }

    open spec fn done(&self) -> bool {
        self.finished
    }

    open spec fn may_finish(&self, v: bool) -> bool {
        // A negative outcome is only still possible while every item
        // seen so far has been rejected.
        !v ==> forall|i: int|
            0 <= i < self.pulled().len() ==> call_ensures(
                self.f,
                ((#[trigger] self.pulled()[i]),),
                false,
            )
    }

    open spec fn fuel(&self) -> nat {
        self.stream.fuel()
    }

    open spec fn step(self, post: Self, r: Poll<bool>) -> bool {
        &&& post.base == self.base
        &&& post.f == self.f
        &&& self.pulled().is_prefix_of(post.pulled())
        &&& reaches(self.stream, post.stream)
        &&& match r {
            Poll::Pending => true,
            Poll::Finished(out) => if out {
                // The last pulled item was accepted, every earlier one
                // rejected: nothing past the deciding item was pulled.
                &&& post.pulled().len() > self.pulled().len()
                &&& call_ensures(self.f, (post.pulled().last(),), true)
                &&& forall|i: int|
                    0 <= i < post.pulled().len() - 1 ==> call_ensures(
                        self.f,
                        ((#[trigger] post.pulled()[i]),),
                        false,
                    )
            } else {
                // The sequence ended; every item was rejected.
                &&& ended_step(post.stream)
                &&& forall|i: int|
                    0 <= i < post.pulled().len() ==> call_ensures(
                        self.f,
                        ((#[trigger] post.pulled()[i]),),
                        false,
                    )
            },
        }
    }

    fn poll(&mut self) -> (r: Poll<bool>) {
        proof {
            lemma_reaches_refl(self.stream);
        }
        loop
            invariant
                self.wf(),
                !self.finished,
                !old(self).finished,
                self.base == old(self).base,
                self.f == old(self).f,
                old(self).pulled().is_prefix_of(self.pulled()),
                self.stream.fuel() <= old(self).stream.fuel(),
                reaches(old(self).stream, self.stream),
            decreases self.stream.fuel(),
        {
            let ghost s1 = *self;
            match self.stream.poll_next() {
                PollNext::Pending => {
                    proof {
                        assert(transition(s1.stream, self.stream, PollNext::Pending));
                        lemma_reaches_extend(
                            old(self).stream,
                            s1.stream,
                            self.stream,
                            PollNext::Pending,
                        );
                    }
                    return Poll::Pending;
                },
                PollNext::Ended => {
                    proof {
                        assert(transition(s1.stream, self.stream, PollNext::Ended));
                        lemma_reaches_extend(
                            old(self).stream,
                            s1.stream,
                            self.stream,
                            PollNext::Ended,
                        );
                        assert forall|i: int| 0 <= i < old(self).pulled().len() implies
                            call_ensures(
                            old(self).f,
                            ((#[trigger] old(self).pulled()[i]),),
                            false,
                        ) by {
                            assert(old(self).pulled()[i] == self.pulled()[i]);
                            assert(call_ensures(self.f, (self.pulled()[i],), false));
                        }
                    }
                    self.finished = true;
                    return Poll::Finished(false);
                },
                PollNext::Item(x) => {
                    proof {
                        assert(transition(s1.stream, self.stream, PollNext::Item(x)));
                        lemma_reaches_extend(
                            old(self).stream,
                            s1.stream,
                            self.stream,
                            PollNext::Item(x),
                        );
                        lemma_since_push(s1.stream.yielded(), s1.base@, x);
                        lemma_prefix_push(s1.base@, s1.stream.yielded(), x);
                        assert(self.pulled() == s1.pulled().push(x));
                    }
                    if (self.f)(x) {
                        self.finished = true;
                        return Poll::Finished(true);
                    }
                },
            }
        }
    }
}

/// The whole of a sequence gathered into a vector: finishes, once the
/// sequence ends, with every item it produced from takeover on, in
/// order.  All items are required to arrive before the vector is
/// produced.
pub struct Collect<S: CompletionStream> {
    /// The sequence being driven.
    pub stream: S,
    /// The items gathered so far; present until the operation finishes.
    pub acc: Option<Vec<S::Item>>,
    /// Whether the operation has finished.
    pub finished: bool,
    /// The sequence's history at takeover.
    pub base: Ghost<Seq<S::Item>>,
}

impl<S: CompletionStream> Collect<S> {
    /// Gather every item `stream` still produces into a vector.
    pub fn new(stream: S) -> (r: Collect<S>)
        requires
            stream.wf(),
        ensures
            r.wf(),
            !r.done(),
            r.stream == stream,
            r.pulled() == Seq::<S::Item>::empty(),
    {
        let r = Collect { base: Ghost(stream.yielded()), stream, acc: Some(Vec::new()), finished: false };
        proof {
            lemma_since_self(r.stream.yielded());
        }
        r
    }

    /// The items the sequence has produced since takeover.
    pub open spec fn pulled(&self) -> Seq<S::Item> {
        since(self.stream.yielded(), self.base@)
    }
}

impl<S: CompletionStream> CompletionFuture for Collect<S> {
    type Output = Vec<S::Item>;

    open spec fn wf(&self) -> bool {
        &&& self.stream.wf()
        &&& self.base@.is_prefix_of(self.stream.yielded())
        &&& !self.finished ==> match self.acc {
            Some(v) => v@ == self.pulled(),
            None => false,
        }
    }

    open spec fn done(&self) -> bool {
        self.finished
    }

    open spec fn may_finish(&self, v: Vec<S::Item>) -> bool {
        self.pulled().is_prefix_of(v@)
    }

    open spec fn fuel(&self) -> nat {
        self.stream.fuel()
    }

    open spec fn step(self, post: Self, r: Poll<Vec<S::Item>>) -> bool {
        &&& post.base == self.base
        &&& self.pulled().is_prefix_of(post.pulled())
        &&& reaches(self.stream, post.stream)
        &&& match r {
            Poll::Pending => true,
            // The vector holds exactly what the sequence produced, in
            // order.
            Poll::Finished(out) => out@ == post.pulled() && ended_step(post.stream),
        }
    }

    fn poll(&mut self) -> (r: Poll<Vec<S::Item>>) {
        proof {
            lemma_reaches_refl(self.stream);
        }
        loop
            invariant
                self.wf(),
                !self.finished,
                !old(self).finished,
                self.base == old(self).base,
                old(self).pulled().is_prefix_of(self.pulled()),
                self.stream.fuel() <= old(self).stream.fuel(),
                reaches(old(self).stream, self.stream),
            decreases self.stream.fuel(),
        {
            let ghost s1 = *self;
            match self.stream.poll_next() {
                PollNext::Pending => {
                    proof {
                        assert(transition(s1.stream, self.stream, PollNext::Pending));
                        lemma_reaches_extend(
                            old(self).stream,
                            s1.stream,
                            self.stream,
                            PollNext::Pending,
                        );
                    }
                    return Poll::Pending;
                },
                PollNext::Ended => {
                    proof {
                        assert(transition(s1.stream, self.stream, PollNext::Ended));
                        lemma_reaches_extend(
                            old(self).stream,
                            s1.stream,
                            self.stream,
                            PollNext::Ended,
                        );
                    }
                    self.finished = true;
                    match self.acc.take() {
                        Some(out) => {
                            return Poll::Finished(out);
                        },
                        None => {
                            proof {
                                assert(false);
                            }
                            return Poll::Pending;
                        },
                    }
                },
                PollNext::Item(x) => {
                    proof {
                        assert(transition(s1.stream, self.stream, PollNext::Item(x)));
                        lemma_reaches_extend(
                            old(self).stream,
                            s1.stream,
                            self.stream,
                            PollNext::Item(x),
                        );
                        lemma_since_push(s1.stream.yielded(), s1.base@, x);
                        lemma_prefix_push(s1.base@, s1.stream.yielded(), x);
                        assert(self.pulled() == s1.pulled().push(x));
                    }
                    match self.acc.take() {
                        Some(mut v) => {
                            v.push(x);
                            self.acc = Some(v);
                        },
                        None => {
                            proof {
                                assert(false);
                            }
                            return Poll::Pending;
                        },
                    }
                },
            }
        }
    }
}

/// A sequence of optional values gathered into an optional vector:
/// finishes with the gathered values once the sequence ends, but
/// finishes with nothing — pulling no further items — as soon as an
/// absent value is seen.
#[verifier::reject_recursive_types(T)]
pub struct CollectOption<S: CompletionStream<Item = Option<T>>, T> {
    /// The sequence being driven.
    pub stream: S,
    /// The values gathered so far; present until the operation finishes.
    pub acc: Option<Vec<T>>,
    /// Whether the operation has finished.
    pub finished: bool,
    /// The sequence's history at takeover.
    pub base: Ghost<Seq<Option<T>>>,
}

impl<S: CompletionStream<Item = Option<T>>, T> CollectOption<S, T> {
    /// Gather the values of `stream` into a vector, giving up at the
    /// first absent value.
    pub fn new(stream: S) -> (r: CollectOption<S, T>)
        requires
            stream.wf(),
        ensures
            r.wf(),
            !r.done(),
            r.stream == stream,
            r.pulled() == Seq::<Option<T>>::empty(),
    {
        let r = CollectOption {
            base: Ghost(stream.yielded()),
            stream,
            acc: Some(Vec::new()),
            finished: false,
        };
        proof {
            lemma_since_self(r.stream.yielded());
        }
        r
    }

    /// The items the sequence has produced since takeover.
    pub open spec fn pulled(&self) -> Seq<Option<T>> {
        since(self.stream.yielded(), self.base@)
    }
}

impl<S: CompletionStream<Item = Option<T>>, T> CompletionFuture for CollectOption<S, T> {
    type Output = Option<Vec<T>>;

    open spec fn wf(&self) -> bool {
        &&& self.stream.wf()
        &&& self.base@.is_prefix_of(self.stream.yielded())
        &&& !self.finished ==> match self.acc {
            Some(v) => v@.len() == self.pulled().len() && forall|i: int|
                0 <= i < v@.len() ==> self.pulled()[i] == Some(#[trigger] v@[i]),
            None => false,
        }
    }

    open spec fn done(&self) -> bool {
        self.finished
    }

    open spec fn may_finish(&self, v: Option<Vec<T>>) -> bool {
        // A positive outcome must extend the values gathered so far.
        match v {
            Some(out) => out@.len() >= self.pulled().len() && forall|i: int|
                0 <= i < self.pulled().len() ==> #[trigger] self.pulled()[i] == Some(out@[i]),
            None => true,
        }
    }

    open spec fn fuel(&self) -> nat {
        self.stream.fuel()
    }

    open spec fn step(self, post: Self, r: Poll<Option<Vec<T>>>) -> bool {
        &&& post.base == self.base
        &&& self.pulled().is_prefix_of(post.pulled())
        &&& reaches(self.stream, post.stream)
        &&& match r {
            Poll::Pending => true,
            Poll::Finished(out) => match out {
                // Every item was a present value; the vector holds them
                // all, in order.
                Some(v) => ended_step(post.stream) && v@.len() == post.pulled().len() && forall|
                    i: int,
                |
                    0 <= i < v@.len() ==> post.pulled()[i] == Some(#[trigger] v@[i]),
                // An absent value was seen and nothing was pulled past
                // it; every earlier item was present.
                None => post.pulled().len() > 0 && post.pulled().last() == None::<T>
                    && forall|i: int|
                    0 <= i < post.pulled().len() - 1 ==> (#[trigger] post.pulled()[i]) is Some,
            },
        }
    }

    fn poll(&mut self) -> (r: Poll<Option<Vec<T>>>) {
        proof {
            lemma_reaches_refl(self.stream);
        }
        loop
            invariant
                self.wf(),
                !self.finished,
                !old(self).finished,
                self.base == old(self).base,
                old(self).pulled().is_prefix_of(self.pulled()),
                self.stream.fuel() <= old(self).stream.fuel(),
                reaches(old(self).stream, self.stream),
            decreases self.stream.fuel(),
        {
            let ghost s1 = *self;
            match self.stream.poll_next() {
                PollNext::Pending => {
                    proof {
                        assert(transition(s1.stream, self.stream, PollNext::Pending));
                        lemma_reaches_extend(
                            old(self).stream,
                            s1.stream,
                            self.stream,
                            PollNext::Pending,
                        );
                    }
                    return Poll::Pending;
                },
                PollNext::Ended => {
                    proof {
                        assert(transition(s1.stream, self.stream, PollNext::Ended));
                        lemma_reaches_extend(
                            old(self).stream,
                            s1.stream,
                            self.stream,
                            PollNext::Ended,
                        );
                    }
                    self.finished = true;
                    match self.acc.take() {
                        Some(out) => {
                            proof {
                                assert forall|i: int| 0 <= i < old(self).pulled().len() implies
                                    #[trigger] old(self).pulled()[i] == Some(out@[i]) by {
                                    assert(old(self).pulled()[i] == self.pulled()[i]);
                                    assert(self.pulled()[i] == Some(out@[i]));
                                }
                            }
                            return Poll::Finished(Some(out));
                        },
                        None => {
                            proof {
                                assert(false);
                            }
                            return Poll::Pending;
                        },
                    }
                },
                PollNext::Item(item) => {
                    proof {
                        assert(transition(s1.stream, self.stream, PollNext::Item(item)));
                        lemma_reaches_extend(
                            old(self).stream,
                            s1.stream,
                            self.stream,
                            PollNext::Item(item),
                        );
                        lemma_since_push(s1.stream.yielded(), s1.base@, item);
                        lemma_prefix_push(s1.base@, s1.stream.yielded(), item);
                        assert(self.pulled() == s1.pulled().push(item));
                    }
                    match item {
                        Some(x) => {
                            match self.acc.take() {
                                Some(mut v) => {
                                    v.push(x);
                                    self.acc = Some(v);
                                },
                                None => {
                                    proof {
                                        assert(false);
                                    }
                                    return Poll::Pending;
                                },
                            }
                        },
                        None => {
                            self.finished = true;
                            proof {
                                let vv = s1.acc.unwrap();
                                assert forall|i: int|
                                    0 <= i < self.pulled().len() - 1 implies (
                                #[trigger] self.pulled()[i]) is Some by {
                                    assert(s1.pulled()[i] == Some(vv@[i]));
                                }
                            }
                            return Poll::Finished(None);
                        },
                    }
                },
            }
        }
    }
}

/// A sequence of fallible values gathered into a fallible vector:
/// finishes with the gathered values once the sequence ends, but
/// finishes with the first error — pulling no further items — as soon as
/// one is seen.
#[verifier::reject_recursive_types(T)]
#[verifier::reject_recursive_types(E)]
pub struct CollectResult<S: CompletionStream<Item = Result<T, E>>, T, E> {
    /// The sequence being driven.
    pub stream: S,
    /// The values gathered so far; present until the operation finishes.
    pub acc: Option<Vec<T>>,
    /// Whether the operation has finished.
    pub finished: bool,
    /// The sequence's history at takeover.
    pub base: Ghost<Seq<Result<T, E>>>,
}

impl<S: CompletionStream<Item = Result<T, E>>, T, E> CollectResult<S, T, E> {
    /// Gather the values of `stream` into a vector, giving up at the
    /// first error.
    pub fn new(stream: S) -> (r: CollectResult<S, T, E>)
        requires
            stream.wf(),
        ensures
            r.wf(),
            !r.done(),
            r.stream == stream,
            r.pulled() == Seq::<Result<T, E>>::empty(),
    {
        let r = CollectResult {
            base: Ghost(stream.yielded()),
            stream,
            acc: Some(Vec::new()),
            finished: false,
        };
        proof {
            lemma_since_self(r.stream.yielded());
        }
        r
    }

    /// The items the sequence has produced since takeover.
    pub open spec fn pulled(&self) -> Seq<Result<T, E>> {
        since(self.stream.yielded(), self.base@)
    }
}

impl<S: CompletionStream<Item = Result<T, E>>, T, E> CompletionFuture for CollectResult<S, T, E> {
    type Output = Result<Vec<T>, E>;

    open spec fn wf(&self) -> bool {
        &&& self.stream.wf()
        &&& self.base@.is_prefix_of(self.stream.yielded())
        &&& !self.finished ==> match self.acc {
            Some(v) => v@.len() == self.pulled().len() && forall|i: int|
                0 <= i < v@.len() ==> self.pulled()[i] == Ok::<T, E>(#[trigger] v@[i]),
            None => false,
        }
    }

    open spec fn done(&self) -> bool {
        self.finished
    }

    open spec fn may_finish(&self, v: Result<Vec<T>, E>) -> bool {
        // A successful outcome must extend the values gathered so far.
        match v {
            Ok(out) => out@.len() >= self.pulled().len() && forall|i: int|
                0 <= i < self.pulled().len() ==> #[trigger] self.pulled()[i] == Ok::<T, E>(
                    out@[i],
                ),
            Err(e) => true,
        }
    }

    open spec fn fuel(&self) -> nat {
        self.stream.fuel()
    }

    open spec fn step(self, post: Self, r: Poll<Result<Vec<T>, E>>) -> bool {
        &&& post.base == self.base
        &&& self.pulled().is_prefix_of(post.pulled())
        &&& reaches(self.stream, post.stream)
        &&& match r {
            Poll::Pending => true,
            Poll::Finished(out) => match out {
                // Every item was a value; the vector holds them all, in
                // order.
                Ok(v) => ended_step(post.stream) && v@.len() == post.pulled().len() && forall|
                    i: int,
                |
                    0 <= i < v@.len() ==> post.pulled()[i] == Ok::<T, E>(#[trigger] v@[i]),
                // An error was seen and nothing was pulled past it;
                // every earlier item was a value.
                Err(e) => post.pulled().len() > 0 && post.pulled().last() == Err::<T, E>(e)
                    && forall|i: int|
                    0 <= i < post.pulled().len() - 1 ==> (#[trigger] post.pulled()[i]) is Ok,
            },
        }
    }

    fn poll(&mut self) -> (r: Poll<Result<Vec<T>, E>>) {
        proof {
            lemma_reaches_refl(self.stream);
        }
        loop
            invariant
                self.wf(),
                !self.finished,
                !old(self).finished,
                self.base == old(self).base,
                old(self).pulled().is_prefix_of(self.pulled()),
                self.stream.fuel() <= old(self).stream.fuel(),
                reaches(old(self).stream, self.stream),
            decreases self.stream.fuel(),
        {
            let ghost s1 = *self;
            match self.stream.poll_next() {
                PollNext::Pending => {
                    proof {
                        assert(transition(s1.stream, self.stream, PollNext::Pending));
                        lemma_reaches_extend(
                            old(self).stream,
                            s1.stream,
                            self.stream,
                            PollNext::Pending,
                        );
                    }
                    return Poll::Pending;
                },
                PollNext::Ended => {
                    proof {
                        assert(transition(s1.stream, self.stream, PollNext::Ended));
                        lemma_reaches_extend(
                            old(self).stream,
                            s1.stream,
                            self.stream,
                            PollNext::Ended,
                        );
                    }
                    self.finished = true;
                    match self.acc.take() {
                        Some(out) => {
                            proof {
                                assert forall|i: int| 0 <= i < old(self).pulled().len() implies
                                    #[trigger] old(self).pulled()[i] == Ok::<T, E>(out@[i]) by {
                                    assert(old(self).pulled()[i] == self.pulled()[i]);
                                    assert(self.pulled()[i] == Ok::<T, E>(out@[i]));
                                }
                            }
                            return Poll::Finished(Ok(out));
                        },
                        None => {
                            proof {
                                assert(false);
                            }
                            return Poll::Pending;
                        },
                    }
                },
                PollNext::Item(item) => {
                    proof {
                        assert(transition(s1.stream, self.stream, PollNext::Item(item)));
                        lemma_reaches_extend(
                            old(self).stream,
                            s1.stream,
                            self.stream,
                            PollNext::Item(item),
                        );
                        lemma_since_push(s1.stream.yielded(), s1.base@, item);
                        lemma_prefix_push(s1.base@, s1.stream.yielded(), item);
                        assert(self.pulled() == s1.pulled().push(item));
                    }
                    match item {
                        Ok(x) => {
                            match self.acc.take() {
                                Some(mut v) => {
                                    v.push(x);
                                    self.acc = Some(v);
                                },
                                None => {
                                    proof {
                                        assert(false);
                                    }
                                    return Poll::Pending;
                                },
                            }
                        },
                        Err(e) => {
                            self.finished = true;
                            proof {
                                let vv = s1.acc.unwrap();
                                assert forall|i: int|
                                    0 <= i < self.pulled().len() - 1 implies (
                                #[trigger] self.pulled()[i]) is Ok by {
                                    assert(s1.pulled()[i] == Ok::<T, E>(vv@[i]));
                                }
                            }
                            return Poll::Finished(Err(e));
                        },
                    }
                },
            }
        }
    }
}

} // verus!
