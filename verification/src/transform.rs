//! Item-wise transforms driven by a user function: mapping, filtering,
//! filter-mapping, and the predicate-bounded prefix and suffix.
//!
//! An adapter that loops internally promises, of every outer poll, that
//! the inner sequence evolved only by a run of its own polls (`reaches`),
//! and that an `Ended` report comes only once the inner sequence has
//! actually reported its end (`ended_step`).
//!
//! The user function is an ordinary `Fn` value.  Its behaviour enters the
//! contracts through `call_ensures`: every contract states that each item
//! passed on (or each verdict acted on) is a possible result of the
//! function on the corresponding pulled item.  Each adapter's
//! well-formedness asks the function to be callable on every item
//! (`call_requires`), which the constructors require once and for all.

use vstd::assert_seqs_equal;
use vstd::prelude::*;

use crate::contract::{ended_step, lemma_reaches_extend, lemma_reaches_once, lemma_reaches_refl, reaches, transition, CompletionStream};
use crate::poll::PollNext;
use crate::seq_facts::{
    kept, lemma_kept_push_false, lemma_kept_push_true, lemma_prefix_push, lemma_since_push,
    lemma_since_self, lemma_take_push, present, lemma_present_push_none, lemma_present_push_some,
    since,
};

verus! {

/// A sequence whose items are the inner sequence's items, each sent
/// through a user function.
#[verifier::reject_recursive_types(U)]
pub struct Mapped<S: CompletionStream, U, F: Fn(S::Item) -> U> {
    /// The inner sequence.
    pub stream: S,
    /// The mapping function.
    pub f: F,
    /// The inner sequence's history at construction.
    pub base: Ghost<Seq<S::Item>>,
    /// The mapped items passed on so far.
    pub outs: Ghost<Seq<U>>,
}

impl<S: CompletionStream, U, F: Fn(S::Item) -> U> Mapped<S, U, F> {
    /// Send every item of `stream` through `f`.
    pub fn new(stream: S, f: F) -> (r: Mapped<S, U, F>)
        requires
            stream.wf(),
            forall|x: S::Item| #[trigger] call_requires(f, (x,)),
        ensures
            r.wf(),
            r.yielded() == Seq::<U>::empty(),
            r.stream == stream,
            r.f == f,
    {
        let r = Mapped { base: Ghost(stream.yielded()), stream, f, outs: Ghost(Seq::empty()) };
        proof {
            lemma_since_self(r.stream.yielded());
        }
        r
    }

    /// The items the inner sequence has produced since construction.
    pub open spec fn pulled(&self) -> Seq<S::Item> {
        since(self.stream.yielded(), self.base@)
    }
}

impl<S: CompletionStream, U, F: Fn(S::Item) -> U> CompletionStream for Mapped<S, U, F> {
    type Item = U;

    open spec fn wf(&self) -> bool {
        &&& self.stream.wf()
        &&& self.base@.is_prefix_of(self.stream.yielded())
        &&& forall|x: S::Item| #[trigger] call_requires(self.f, (x,))
        &&& self.outs@.len() == self.pulled().len()
        &&& forall|i: int|
            0 <= i < self.outs@.len() ==> call_ensures(
                self.f,
                (self.pulled()[i],),
                #[trigger] self.outs@[i],
            )
    }

    open spec fn yielded(&self) -> Seq<U> {
        self.outs@
    }

    open spec fn fuel(&self) -> nat {
        self.stream.fuel()
    }

    open spec fn step(self, post: Self, r: PollNext<U>) -> bool {
        &&& post.base == self.base
        &&& post.f == self.f
        &&& match r {
            PollNext::Pending => {
                &&& post.outs == self.outs
                &&& transition(self.stream, post.stream, PollNext::Pending)
            },
            PollNext::Item(v) => {
                &&& transition(self.stream, post.stream, PollNext::Item(post.pulled().last()))
                &&& call_ensures(self.f, (post.pulled().last(),), v)
                &&& post.outs@ == self.outs@.push(v)
            },
            PollNext::Ended => {
                &&& post.outs == self.outs
                &&& transition(self.stream, post.stream, PollNext::Ended)
            },
        }
    }

    fn poll_next(&mut self) -> (r: PollNext<U>) {
        match self.stream.poll_next() {
            PollNext::Pending => PollNext::Pending,
            PollNext::Item(x) => {
                proof {
                    lemma_since_push(old(self).stream.yielded(), old(self).base@, x);
                    lemma_prefix_push(old(self).base@, old(self).stream.yielded(), x);
                }
                let v = (self.f)(x);
                self.outs = Ghost(self.outs@.push(v));
                PollNext::Item(v)
            },
            PollNext::Ended => PollNext::Ended,
        }
    }
}

/// A sequence keeping only the inner items the predicate accepts.
///
/// A poll keeps pulling from the inner sequence until an item is accepted
/// or the inner sequence pends or ends; rejected items are discarded
/// silently, inside the same poll.
pub struct Filter<S: CompletionStream, F: Fn(&S::Item) -> bool> {
    /// The inner sequence.
    pub stream: S,
    /// The predicate.
    pub f: F,
    /// The inner sequence's history at construction.
    pub base: Ghost<Seq<S::Item>>,
    /// The predicate's verdict on each pulled item, in order.
    pub marks: Ghost<Seq<bool>>,
}

impl<S: CompletionStream, F: Fn(&S::Item) -> bool> Filter<S, F> {
    /// Keep the items of `stream` on which `f` returns `true`.
    pub fn new(stream: S, f: F) -> (r: Filter<S, F>)
        requires
            stream.wf(),
            forall|x: S::Item| #[trigger] call_requires(f, (&x,)),
        ensures
            r.wf(),
            r.yielded() == Seq::<S::Item>::empty(),
            r.stream == stream,
            r.f == f,
    {
        let r = Filter { base: Ghost(stream.yielded()), stream, f, marks: Ghost(Seq::empty()) };
        proof {
            lemma_since_self(r.stream.yielded());
        }
        r
    }

    /// The items the inner sequence has produced since construction,
    /// rejected ones included.
    pub open spec fn pulled(&self) -> Seq<S::Item> {
        since(self.stream.yielded(), self.base@)
    }
}

impl<S: CompletionStream, F: Fn(&S::Item) -> bool> CompletionStream for Filter<S, F> {
    type Item = S::Item;

    open spec fn wf(&self) -> bool {
        &&& self.stream.wf()
        &&& self.base@.is_prefix_of(self.stream.yielded())
        &&& forall|x: S::Item| #[trigger] call_requires(self.f, (&x,))
        &&& self.marks@.len() == self.pulled().len()
        &&& forall|i: int|
            0 <= i < self.marks@.len() ==> call_ensures(
                self.f,
                (&self.pulled()[i],),
                #[trigger] self.marks@[i],
            )
    }

    open spec fn yielded(&self) -> Seq<S::Item> {
        kept(self.pulled(), self.marks@)
    }

    open spec fn fuel(&self) -> nat {
        self.stream.fuel()
    }

    open spec fn step(self, post: Self, r: PollNext<S::Item>) -> bool {
        &&& post.base == self.base
        &&& post.f == self.f
        &&& self.pulled().is_prefix_of(post.pulled())
        &&& self.marks@.is_prefix_of(post.marks@)
        &&& reaches(self.stream, post.stream)
        &&& match r {
            PollNext::Pending => {
                // Everything pulled in this poll was rejected.
                forall|i: int|
                    self.marks@.len() <= i < post.marks@.len() ==> !(#[trigger] post.marks@[i])
            },
            PollNext::Item(v) => {
                // Everything pulled before the accepted item was rejected.
                &&& post.pulled().last() == v
                &&& post.marks@.last()
                &&& call_ensures(self.f, (&v,), true)
                &&& forall|i: int|
                    self.marks@.len() <= i < post.marks@.len() - 1 ==> !(#[trigger] post.marks@[i])
            },
            PollNext::Ended => {
                &&& ended_step(post.stream)
                &&& forall|i: int|
                    self.marks@.len() <= i < post.marks@.len() ==> !(#[trigger] post.marks@[i])
            },
        }
    }

    fn poll_next(&mut self) -> (r: PollNext<S::Item>) {
        proof {
            lemma_reaches_refl(self.stream);
        }
        loop
            invariant
                self.wf(),
                self.base == old(self).base,
                self.f == old(self).f,
                old(self).pulled().is_prefix_of(self.pulled()),
                old(self).marks@.is_prefix_of(self.marks@),
                forall|i: int|
                    old(self).marks@.len() <= i < self.marks@.len() ==> !(
                    #[trigger] self.marks@[i]),
                self.yielded() == old(self).yielded(),
                self.stream.fuel() <= old(self).stream.fuel(),
                reaches(old(self).stream, self.stream),
            decreases self.stream.fuel(),
        {
            let ghost s1 = *self;
            match self.stream.poll_next() {
                PollNext::Pending => {
                    proof {
                        assert(transition(s1.stream, self.stream, PollNext::Pending));
                        lemma_reaches_extend(
                            old(self).stream,
                            s1.stream,
                            self.stream,
                            PollNext::Pending,
                        );
                    }
                    return PollNext::Pending;
                },
                PollNext::Ended => {
                    proof {
                        assert(transition(s1.stream, self.stream, PollNext::Ended));
                        lemma_reaches_extend(
                            old(self).stream,
                            s1.stream,
                            self.stream,
                            PollNext::Ended,
                        );
                    }
                    return PollNext::Ended;
                },
                PollNext::Item(x) => {
                    proof {
                        assert(transition(s1.stream, self.stream, PollNext::Item(x)));
                        lemma_reaches_extend(
                            old(self).stream,
                            s1.stream,
                            self.stream,
                            PollNext::Item(x),
                        );
                        lemma_since_push(s1.stream.yielded(), s1.base@, x);
                        lemma_prefix_push(s1.base@, s1.stream.yielded(), x);
                        assert(self.pulled() == s1.pulled().push(x));
                    }
                    let keep = (self.f)(&x);
                    self.marks = Ghost(self.marks@.push(keep));
                    proof {
                        if keep {
                            lemma_kept_push_true(s1.pulled(), s1.marks@, x);
                        } else {
                            lemma_kept_push_false(s1.pulled(), s1.marks@, x);
                        }
                        assert(s1.marks@.is_prefix_of(self.marks@)) by {
                            assert_seqs_equal!(s1.marks@ ==
                                self.marks@.take(s1.marks@.len() as int));
                        }
                    }
                    if keep {
                        return PollNext::Item(x);
                    }
                },
            }
        }
    }
}

/// A sequence of the present results of a partial user mapping: items for
/// which the function returns a value are mapped to it, the rest are
/// discarded.
///
/// Like [`Filter`], a poll keeps pulling from the inner sequence until a
/// mapped item is produced or the inner sequence pends or ends.
#[verifier::reject_recursive_types(U)]
pub struct FilterMap<S: CompletionStream, U, F: Fn(S::Item) -> Option<U>> {
    /// The inner sequence.
    pub stream: S,
    /// The partial mapping function.
    pub f: F,
    /// The inner sequence's history at construction.
    pub base: Ghost<Seq<S::Item>>,
    /// The function's result on each pulled item, in order.
    pub marks: Ghost<Seq<Option<U>>>,
}

impl<S: CompletionStream, U, F: Fn(S::Item) -> Option<U>> FilterMap<S, U, F> {
    /// Keep and map the items of `stream` on which `f` returns a value.
    pub fn new(stream: S, f: F) -> (r: FilterMap<S, U, F>)
        requires
            stream.wf(),
            forall|x: S::Item| #[trigger] call_requires(f, (x,)),
        ensures
            r.wf(),
            r.yielded() == Seq::<U>::empty(),
            r.stream == stream,
            r.f == f,
    {
        let r = FilterMap { base: Ghost(stream.yielded()), stream, f, marks: Ghost(Seq::empty()) };
        proof {
            lemma_since_self(r.stream.yielded());
        }
        r
    }

    /// The items the inner sequence has produced since construction,
    /// discarded ones included.
    pub open spec fn pulled(&self) -> Seq<S::Item> {
        since(self.stream.yielded(), self.base@)
    }
}

impl<S: CompletionStream, U, F: Fn(S::Item) -> Option<U>> CompletionStream for FilterMap<S, U, F> {
    type Item = U;

    open spec fn wf(&self) -> bool {
        &&& self.stream.wf()
        &&& self.base@.is_prefix_of(self.stream.yielded())
        &&& forall|x: S::Item| #[trigger] call_requires(self.f, (x,))
        &&& self.marks@.len() == self.pulled().len()
        &&& forall|i: int|
            0 <= i < self.marks@.len() ==> call_ensures(
                self.f,
                (self.pulled()[i],),
                #[trigger] self.marks@[i],
            )
    }

    open spec fn yielded(&self) -> Seq<U> {
        present(self.marks@)
    }

    open spec fn fuel(&self) -> nat {
        self.stream.fuel()
    }

    open spec fn step(self, post: Self, r: PollNext<U>) -> bool {
        &&& post.base == self.base
        &&& post.f == self.f
        &&& self.pulled().is_prefix_of(post.pulled())
        &&& self.marks@.is_prefix_of(post.marks@)
        &&& reaches(self.stream, post.stream)
        &&& match r {
            PollNext::Pending => {
                forall|i: int|
                    self.marks@.len() <= i < post.marks@.len() ==> (#[trigger] post.marks@[i])
                        is None
            },
            PollNext::Item(v) => {
                &&& post.marks@.last() == Some(v)
                &&& call_ensures(self.f, (post.pulled().last(),), Some(v))
                &&& forall|i: int|
                    self.marks@.len() <= i < post.marks@.len() - 1 ==> (#[trigger] post.marks@[i])
                        is None
            },
            PollNext::Ended => {
                &&& ended_step(post.stream)
                &&& forall|i: int|
                    self.marks@.len() <= i < post.marks@.len() ==> (#[trigger] post.marks@[i])
                        is None
            },
        }
    }

    fn poll_next(&mut self) -> (r: PollNext<U>) {
        proof {
            lemma_reaches_refl(self.stream);
        }
        loop
            invariant
                self.wf(),
                self.base == old(self).base,
                self.f == old(self).f,
                old(self).pulled().is_prefix_of(self.pulled()),
                old(self).marks@.is_prefix_of(self.marks@),
                forall|i: int|
                    old(self).marks@.len() <= i < self.marks@.len() ==> (
                    #[trigger] self.marks@[i]) is None,
                self.yielded() == old(self).yielded(),
                self.stream.fuel() <= old(self).stream.fuel(),
                reaches(old(self).stream, self.stream),
            decreases self.stream.fuel(),
        {
            let ghost s1 = *self;
            match self.stream.poll_next() {
                PollNext::Pending => {
                    proof {
                        assert(transition(s1.stream, self.stream, PollNext::Pending));
                        lemma_reaches_extend(
                            old(self).stream,
                            s1.stream,
                            self.stream,
                            PollNext::Pending,
                        );
                    }
                    return PollNext::Pending;
                },
                PollNext::Ended => {
                    proof {
                        assert(transition(s1.stream, self.stream, PollNext::Ended));
                        lemma_reaches_extend(
                            old(self).stream,
                            s1.stream,
                            self.stream,
                            PollNext::Ended,
                        );
                    }
                    return PollNext::Ended;
                },
                PollNext::Item(x) => {
                    proof {
                        assert(transition(s1.stream, self.stream, PollNext::Item(x)));
                        lemma_reaches_extend(
                            old(self).stream,
                            s1.stream,
                            self.stream,
                            PollNext::Item(x),
                        );
                        lemma_since_push(s1.stream.yielded(), s1.base@, x);
                        lemma_prefix_push(s1.base@, s1.stream.yielded(), x);
                        assert(self.pulled() == s1.pulled().push(x));
                    }
                    let mapped = (self.f)(x);
                    self.marks = Ghost(self.marks@.push(mapped));
                    proof {
                        assert(s1.marks@.is_prefix_of(self.marks@)) by {
                            assert_seqs_equal!(s1.marks@ ==
                                self.marks@.take(s1.marks@.len() as int));
                        }
                    }
                    match mapped {
                        Some(v) => {
                            proof {
                                lemma_present_push_some(s1.marks@, v);
                            }
                            return PollNext::Item(v);
                        },
                        None => {
                            proof {
                                lemma_present_push_none::<U>(s1.marks@);
                            }
                        },
                    }
                },
            }
        }
    }
}

/// A sequence with its longest predicate-satisfying prefix removed.
///
/// Items are discarded while the predicate holds; the first item on which
/// it fails is passed through, and from then on everything is passed
/// through unconditionally — the skipping phase, once left, is never
/// re-entered, even if the predicate would match again.
pub struct SkipWhile<S: CompletionStream, F: Fn(&S::Item) -> bool> {
    /// The inner sequence.
    pub stream: S,
    /// The predicate.
    pub f: F,
    /// Whether the skipping phase is still on.
    pub skipping: bool,
    /// The inner sequence's history at construction.
    pub base: Ghost<Seq<S::Item>>,
    /// How many leading items have been discarded.
    pub dropped: Ghost<int>,
}

impl<S: CompletionStream, F: Fn(&S::Item) -> bool> SkipWhile<S, F> {
    /// Discard the leading items of `stream` on which `f` returns `true`.
    pub fn new(stream: S, f: F) -> (r: SkipWhile<S, F>)
        requires
            stream.wf(),
            forall|x: S::Item| #[trigger] call_requires(f, (&x,)),
        ensures
            r.wf(),
            r.yielded() == Seq::<S::Item>::empty(),
            r.stream == stream,
            r.f == f,
            r.skipping,
    {
        let r = SkipWhile {
            base: Ghost(stream.yielded()),
            stream,
            f,
            skipping: true,
            dropped: Ghost(0),
        };
        proof {
            lemma_since_self(r.stream.yielded());
            assert_seqs_equal!(r.yielded() == Seq::<S::Item>::empty());
        }
        r
    }

    /// The items the inner sequence has produced since construction,
    /// discarded ones included.
    pub open spec fn pulled(&self) -> Seq<S::Item> {
        since(self.stream.yielded(), self.base@)
    }
}

impl<S: CompletionStream, F: Fn(&S::Item) -> bool> CompletionStream for SkipWhile<S, F> {
    type Item = S::Item;

    open spec fn wf(&self) -> bool {
        &&& self.stream.wf()
        &&& self.base@.is_prefix_of(self.stream.yielded())
        &&& forall|x: S::Item| #[trigger] call_requires(self.f, (&x,))
        &&& 0 <= self.dropped@ <= self.pulled().len()
        &&& self.skipping ==> self.dropped@ == self.pulled().len()
        &&& forall|i: int|
            0 <= i < self.dropped@ ==> call_ensures(self.f, (&(#[trigger] self.pulled()[i]),), true)
        &&& !self.skipping ==> self.dropped@ < self.pulled().len() && call_ensures(
            self.f,
            (&self.pulled()[self.dropped@],),
            false,
        )
    }

    open spec fn yielded(&self) -> Seq<S::Item> {
        self.pulled().skip(self.dropped@)
    }

    open spec fn fuel(&self) -> nat {
        self.stream.fuel()
    }

    open spec fn step(self, post: Self, r: PollNext<S::Item>) -> bool {
        &&& post.base == self.base
        &&& post.f == self.f
        &&& self.pulled().is_prefix_of(post.pulled())
        &&& reaches(self.stream, post.stream)
        &&& match r {
            PollNext::Pending => {
                &&& post.skipping == self.skipping
                &&& if self.skipping {
                    post.dropped@ == post.pulled().len()
                } else {
                    post.pulled() == self.pulled() && post.dropped == self.dropped
                }
            },
            PollNext::Item(v) => {
                &&& !post.skipping
                &&& post.pulled().last() == v
                &&& if self.skipping {
                    post.dropped@ == post.pulled().len() - 1 && call_ensures(self.f, (&v,), false)
                } else {
                    post.pulled().len() == self.pulled().len() + 1 && post.dropped == self.dropped
                }
            },
            PollNext::Ended => {
                &&& post.skipping == self.skipping
                &&& ended_step(post.stream)
                &&& if self.skipping {
                    post.dropped@ == post.pulled().len()
                } else {
                    post.pulled() == self.pulled() && post.dropped == self.dropped
                }
            },
        }
    }

    fn poll_next(&mut self) -> (r: PollNext<S::Item>) {
        if !self.skipping {
            let ghost s1 = *self;
            match self.stream.poll_next() {
                PollNext::Pending => {
                    proof {
                        lemma_reaches_once(s1.stream, self.stream, PollNext::Pending);
                    }
                    PollNext::Pending
                },
                PollNext::Item(v) => {
                    proof {
                        lemma_reaches_once(s1.stream, self.stream, PollNext::Item(v));
                        lemma_since_push(s1.stream.yielded(), s1.base@, v);
                        lemma_prefix_push(s1.base@, s1.stream.yielded(), v);
                        assert(self.pulled() == s1.pulled().push(v));
                        assert_seqs_equal!(self.yielded() == s1.yielded().push(v));
                    }
                    PollNext::Item(v)
                },
                PollNext::Ended => {
                    proof {
                        assert(transition(s1.stream, self.stream, PollNext::Ended));
                        lemma_reaches_once(s1.stream, self.stream, PollNext::Ended);
                    }
                    PollNext::Ended
                },
            }
        } else {
            proof {
                lemma_reaches_refl(self.stream);
            }
            loop
                invariant
                    self.wf(),
                    self.skipping,
                    old(self).skipping,
                    self.base == old(self).base,
                    self.f == old(self).f,
                    old(self).pulled().is_prefix_of(self.pulled()),
                    self.yielded() == old(self).yielded(),
                    self.stream.fuel() <= old(self).stream.fuel(),
                    reaches(old(self).stream, self.stream),
                decreases self.stream.fuel(),
            {
                let ghost s1 = *self;
                match self.stream.poll_next() {
                    PollNext::Pending => {
                        proof {
                            assert(transition(s1.stream, self.stream, PollNext::Pending));
                            lemma_reaches_extend(
                                old(self).stream,
                                s1.stream,
                                self.stream,
                                PollNext::Pending,
                            );
                        }
                        return PollNext::Pending;
                    },
                    PollNext::Ended => {
                        proof {
                            assert(transition(s1.stream, self.stream, PollNext::Ended));
                            lemma_reaches_extend(
                                old(self).stream,
                                s1.stream,
                                self.stream,
                                PollNext::Ended,
                            );
                        }
                        return PollNext::Ended;
                    },
                    PollNext::Item(x) => {
                        proof {
                            assert(transition(s1.stream, self.stream, PollNext::Item(x)));
                            lemma_reaches_extend(
                                old(self).stream,
                                s1.stream,
                                self.stream,
                                PollNext::Item(x),
                            );
                            lemma_since_push(s1.stream.yielded(), s1.base@, x);
                            lemma_prefix_push(s1.base@, s1.stream.yielded(), x);
                            assert(self.pulled() == s1.pulled().push(x));
                        }
                        let keep_skipping = (self.f)(&x);
                        if keep_skipping {
                            self.dropped = Ghost(self.dropped@ + 1);
                            proof {
                                assert_seqs_equal!(self.yielded() == s1.yielded());
                            }
                        } else {
                            self.skipping = false;
                            proof {
                                assert_seqs_equal!(self.yielded() == s1.yielded().push(x));
                            }
                            return PollNext::Item(x);
                        }
                    },
                }
            }
        }
    }
}

/// A sequence cut off at the first item the predicate rejects.
///
/// Items are passed through while the predicate holds; the first item on
/// which it fails is discarded — not merely skipped — and the sequence
/// reports `Ended` from then on, never polling the inner sequence again.
pub struct TakeWhile<S: CompletionStream, F: Fn(&S::Item) -> bool> {
    /// The inner sequence.
    pub stream: S,
    /// The predicate.
    pub f: F,
    /// Whether the cut-off has happened (a rejected item or the inner
    /// sequence's own end).
    pub done: bool,
    /// The inner sequence's history at construction.
    pub base: Ghost<Seq<S::Item>>,
    /// How many items have been passed through.
    pub taken: Ghost<int>,
}

impl<S: CompletionStream, F: Fn(&S::Item) -> bool> TakeWhile<S, F> {
    /// Pass through the leading items of `stream` on which `f` returns
    /// `true`; end at the first rejection.
    pub fn new(stream: S, f: F) -> (r: TakeWhile<S, F>)
        requires
            stream.wf(),
            forall|x: S::Item| #[trigger] call_requires(f, (&x,)),
        ensures
            r.wf(),
            r.yielded() == Seq::<S::Item>::empty(),
            r.stream == stream,
            r.f == f,
            !r.done,
    {
        let r = TakeWhile {
            base: Ghost(stream.yielded()),
            stream,
            f,
            done: false,
            taken: Ghost(0),
        };
        proof {
            lemma_since_self(r.stream.yielded());
            assert_seqs_equal!(r.yielded() == Seq::<S::Item>::empty());
        }
        r
    }

    /// The items the inner sequence has produced since construction, a
    /// final rejected one included.
    pub open spec fn pulled(&self) -> Seq<S::Item> {
        since(self.stream.yielded(), self.base@)
    }
}

impl<S: CompletionStream, F: Fn(&S::Item) -> bool> CompletionStream for TakeWhile<S, F> {
    type Item = S::Item;

    open spec fn wf(&self) -> bool {
        &&& self.stream.wf()
        &&& self.base@.is_prefix_of(self.stream.yielded())
        &&& forall|x: S::Item| #[trigger] call_requires(self.f, (&x,))
        &&& 0 <= self.taken@ <= self.pulled().len()
        &&& !self.done ==> self.taken@ == self.pulled().len()
        &&& forall|i: int|
            0 <= i < self.taken@ ==> call_ensures(self.f, (&(#[trigger] self.pulled()[i]),), true)
        &&& self.done && self.taken@ < self.pulled().len() ==> self.taken@ == self.pulled().len()
            - 1 && call_ensures(self.f, (&self.pulled()[self.taken@],), false)
    }

    open spec fn yielded(&self) -> Seq<S::Item> {
        self.pulled().take(self.taken@)
    }

    open spec fn fuel(&self) -> nat {
        self.stream.fuel()
    }

    open spec fn step(self, post: Self, r: PollNext<S::Item>) -> bool {
        &&& post.base == self.base
        &&& post.f == self.f
        &&& if self.done {
            // The cut-off is permanent: the inner sequence is not polled.
            r is Ended && post == self
        } else {
            match r {
                PollNext::Pending => {
                    &&& !post.done
                    &&& post.taken == self.taken
                    &&& transition(self.stream, post.stream, PollNext::Pending)
                },
                PollNext::Item(v) => {
                    &&& !post.done
                    &&& post.taken@ == self.taken@ + 1
                    &&& call_ensures(self.f, (&v,), true)
                    &&& transition(self.stream, post.stream, PollNext::Item(v))
                },
                PollNext::Ended => {
                    &&& post.done
                    &&& post.taken == self.taken
                    &&& {
                        // Either the inner sequence itself ended, or an
                        // item was pulled, rejected, and discarded.
                        ||| transition(self.stream, post.stream, PollNext::Ended)
                        ||| (transition(self.stream, post.stream, PollNext::Item(post.pulled().last()))
                            && call_ensures(self.f, (&post.pulled().last(),), false))
                    }
                },
            }
        }
    }

    fn poll_next(&mut self) -> (r: PollNext<S::Item>) {
        if self.done {
            return PollNext::Ended;
        }
        let ghost s1 = *self;
        match self.stream.poll_next() {
            PollNext::Pending => PollNext::Pending,
            PollNext::Item(x) => {
                proof {
                    lemma_since_push(s1.stream.yielded(), s1.base@, x);
                    lemma_prefix_push(s1.base@, s1.stream.yielded(), x);
                    assert(self.pulled() == s1.pulled().push(x));
                }
                let keep = (self.f)(&x);
                if keep {
                    self.taken = Ghost(self.taken@ + 1);
                    proof {
                        assert_seqs_equal!(self.yielded() == s1.yielded().push(x));
                    }
                    PollNext::Item(x)
                } else {
                    self.done = true;
                    proof {
                        lemma_take_push(s1.pulled(), x, s1.taken@);
                    }
                    PollNext::Ended
                }
            },
            PollNext::Ended => {
                self.done = true;
                PollNext::Ended
            },
        }
    }
}

/// A sequence of owned copies: for an inner sequence over references to
/// copyable values, yields the values themselves.
#[verifier::reject_recursive_types(T)]
pub struct Copied<'a, T: Copy + 'a, S: CompletionStream<Item = &'a T>> {
    /// The inner sequence.
    pub stream: S,
    /// The inner sequence's history at construction.
    pub base: Ghost<Seq<&'a T>>,
    /// The copies passed on so far.
    pub outs: Ghost<Seq<T>>,
}

impl<'a, T: Copy + 'a, S: CompletionStream<Item = &'a T>> Copied<'a, T, S> {
    /// Copy every item of `stream` out of its reference.
    pub fn new(stream: S) -> (r: Copied<'a, T, S>)
        requires
            stream.wf(),
        ensures
            r.wf(),
            r.yielded() == Seq::<T>::empty(),
            r.stream == stream,
    {
        let r = Copied { base: Ghost(stream.yielded()), stream, outs: Ghost(Seq::empty()) };
        proof {
            lemma_since_self(r.stream.yielded());
        }
        r
    }

    /// The items the inner sequence has produced since construction.
    pub open spec fn pulled(&self) -> Seq<&'a T> {
        since(self.stream.yielded(), self.base@)
    }
}

impl<'a, T: Copy + 'a, S: CompletionStream<Item = &'a T>> CompletionStream for Copied<'a, T, S> {
    type Item = T;

    open spec fn wf(&self) -> bool {
        &&& self.stream.wf()
        &&& self.base@.is_prefix_of(self.stream.yielded())
        &&& self.outs@.len() == self.pulled().len()
        &&& forall|i: int|
            0 <= i < self.outs@.len() ==> #[trigger] self.outs@[i] == *self.pulled()[i]
    }

    open spec fn yielded(&self) -> Seq<T> {
        self.outs@
    }

    open spec fn fuel(&self) -> nat {
        self.stream.fuel()
    }

    open spec fn step(self, post: Self, r: PollNext<T>) -> bool {
        &&& post.base == self.base
        &&& match r {
            PollNext::Pending => {
                &&& post.outs == self.outs
                &&& transition(self.stream, post.stream, PollNext::Pending)
            },
            PollNext::Item(v) => {
                &&& transition(self.stream, post.stream, PollNext::Item(post.pulled().last()))
                &&& v == *post.pulled().last()
                &&& post.outs@ == self.outs@.push(v)
            },
            PollNext::Ended => {
                &&& post.outs == self.outs
                &&& transition(self.stream, post.stream, PollNext::Ended)
            },
        }
    }

    fn poll_next(&mut self) -> (r: PollNext<T>) {
        match self.stream.poll_next() {
            PollNext::Pending => PollNext::Pending,
            PollNext::Item(x) => {
                proof {
                    lemma_since_push(old(self).stream.yielded(), old(self).base@, x);
                    lemma_prefix_push(old(self).base@, old(self).stream.yielded(), x);
                }
                let v = *x;
                self.outs = Ghost(self.outs@.push(v));
                PollNext::Item(v)
            },
            PollNext::Ended => PollNext::Ended,
        }
    }
}

/// A sequence of owned duplicates: for an inner sequence over references
/// to cloneable values, yields a clone of each.
#[verifier::reject_recursive_types(T)]
pub struct Cloned<'a, T: Clone + 'a, S: CompletionStream<Item = &'a T>> {
    /// The inner sequence.
    pub stream: S,
    /// The inner sequence's history at construction.
    pub base: Ghost<Seq<&'a T>>,
    /// The clones passed on so far.
    pub outs: Ghost<Seq<T>>,
}

impl<'a, T: Clone + 'a, S: CompletionStream<Item = &'a T>> Cloned<'a, T, S> {
    /// Clone every item of `stream` out of its reference.
    pub fn new(stream: S) -> (r: Cloned<'a, T, S>)
        requires
            stream.wf(),
        ensures
            r.wf(),
            r.yielded() == Seq::<T>::empty(),
            r.stream == stream,
    {
        let r = Cloned { base: Ghost(stream.yielded()), stream, outs: Ghost(Seq::empty()) };
        proof {
            lemma_since_self(r.stream.yielded());
        }
        r
    }

    /// The items the inner sequence has produced since construction.
    pub open spec fn pulled(&self) -> Seq<&'a T> {
        since(self.stream.yielded(), self.base@)
    }
}

impl<'a, T: Clone + 'a, S: CompletionStream<Item = &'a T>> CompletionStream for Cloned<'a, T, S> {
    type Item = T;

    open spec fn wf(&self) -> bool {
        &&& self.stream.wf()
        &&& self.base@.is_prefix_of(self.stream.yielded())
        &&& self.outs@.len() == self.pulled().len()
        &&& forall|i: int|
            0 <= i < self.outs@.len() ==> vstd::pervasive::cloned::<T>(
                *self.pulled()[i],
                #[trigger] self.outs@[i],
            )
    }

    open spec fn yielded(&self) -> Seq<T> {
        self.outs@
    }

    open spec fn fuel(&self) -> nat {
        self.stream.fuel()
    }

    open spec fn step(self, post: Self, r: PollNext<T>) -> bool {
        &&& post.base == self.base
        &&& match r {
            PollNext::Pending => {
                &&& post.outs == self.outs
                &&& transition(self.stream, post.stream, PollNext::Pending)
            },
            PollNext::Item(v) => {
                &&& transition(self.stream, post.stream, PollNext::Item(post.pulled().last()))
                &&& vstd::pervasive::cloned::<T>(*post.pulled().last(), v)
                &&& post.outs@ == self.outs@.push(v)
            },
            PollNext::Ended => {
                &&& post.outs == self.outs
                &&& transition(self.stream, post.stream, PollNext::Ended)
            },
        }
    }

    fn poll_next(&mut self) -> (r: PollNext<T>) {
        match self.stream.poll_next() {
            PollNext::Pending => PollNext::Pending,
            PollNext::Item(x) => {
                proof {
                    lemma_since_push(old(self).stream.yielded(), old(self).base@, x);
                    lemma_prefix_push(old(self).base@, old(self).stream.yielded(), x);
                }
                let v = x.clone();
                self.outs = Ghost(self.outs@.push(v));
                PollNext::Item(v)
            },
            PollNext::Ended => PollNext::Ended,
        }
    }
}

} // verus!
