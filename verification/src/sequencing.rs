//! Stateful sequencing adapters: fusing, bounded prefixes and suffixes,
//! concatenation and striding.
//!
//! Every adapter owns its inner sequence exclusively, taken at
//! construction.  Its model `yielded()` is stated over the items the inner
//! sequence has produced since that moment (`since` of the recorded ghost
//! `base`), and its `step` relation pins down what one poll does to the
//! adapter's own counters and to the inner sequence.

use vstd::assert_seqs_equal;
use vstd::prelude::*;

use crate::contract::{ended_step, lemma_reaches_extend, lemma_reaches_refl, reaches, transition, CompletionStream};
use crate::poll::PollNext;
use crate::seq_facts::{lemma_concat_push, lemma_prefix_push, lemma_since_push, lemma_since_self, since};

verus! {

/// A sequence that is idempotently ended: once the inner sequence has
/// reported `Ended` once, every further poll reports `Ended` without
/// touching the inner sequence again, whatever the inner sequence would
/// have done.
pub struct Fuse<S: CompletionStream> {
    /// The inner sequence.
    pub stream: S,
    /// Whether the inner sequence has ever reported `Ended`.
    pub done: bool,
    /// The inner sequence's history at construction.
    pub base: Ghost<Seq<S::Item>>,
}

impl<S: CompletionStream> Fuse<S> {
    /// Wrap `stream` so that its first `Ended` report becomes permanent.
    pub fn new(stream: S) -> (r: Fuse<S>)
        requires
            stream.wf(),
        ensures
            r.wf(),
            r.yielded() == Seq::<S::Item>::empty(),
            r.stream == stream,
            !r.done,
    {
        let r = Fuse { base: Ghost(stream.yielded()), stream, done: false };
        proof {
            lemma_since_self(r.stream.yielded());
        }
        r
    }
}

impl<S: CompletionStream> CompletionStream for Fuse<S> {
    type Item = S::Item;

    open spec fn wf(&self) -> bool {
        &&& self.stream.wf()
        &&& self.base@.is_prefix_of(self.stream.yielded())
    }

    open spec fn yielded(&self) -> Seq<S::Item> {
        since(self.stream.yielded(), self.base@)
    }

    open spec fn fuel(&self) -> nat {
        self.stream.fuel()
    }

    open spec fn step(self, post: Self, r: PollNext<S::Item>) -> bool {
        &&& post.base == self.base
        &&& if self.done {
            // Exhaustion is permanent: the inner sequence is not polled.
            r is Ended && post == self
        } else {
            match r {
                PollNext::Pending => !post.done && transition(
                    self.stream,
                    post.stream,
                    PollNext::Pending,
                ),
                PollNext::Item(v) => !post.done && transition(
                    self.stream,
                    post.stream,
                    PollNext::Item(v),
                ),
                PollNext::Ended => post.done && transition(
                    self.stream,
                    post.stream,
                    PollNext::Ended,
                ),
            }
        }
    }

    fn poll_next(&mut self) -> (r: PollNext<S::Item>) {
        if self.done {
            return PollNext::Ended;
        }
        match self.stream.poll_next() {
            PollNext::Pending => PollNext::Pending,
            PollNext::Item(v) => {
                proof {
                    lemma_since_push(old(self).stream.yielded(), old(self).base@, v);
                    lemma_prefix_push(old(self).base@, old(self).stream.yielded(), v);
                }
                PollNext::Item(v)
            },
            PollNext::Ended => {
                self.done = true;
                PollNext::Ended
            },
        }
    }
}

/// A sequence cut down to at most a fixed number of items.
///
/// While the budget lasts, every poll is a pass-through; once `left`
/// reaches zero, the sequence reports `Ended` without polling the inner
/// sequence again.  Items the inner sequence would have produced past the
/// budget are never pulled.
pub struct Take<S: CompletionStream> {
    /// The inner sequence.
    pub stream: S,
    /// How many more items may be passed through.
    pub left: usize,
    /// The inner sequence's history at construction.
    pub base: Ghost<Seq<S::Item>>,
    /// The budget given at construction.
    pub quota: Ghost<int>,
}

impl<S: CompletionStream> Take<S> {
    /// Pass through at most the first `n` items of `stream`.
    pub fn new(stream: S, n: usize) -> (r: Take<S>)
        requires
            stream.wf(),
        ensures
            r.wf(),
            r.yielded() == Seq::<S::Item>::empty(),
            r.stream == stream,
            r.left == n,
            r.quota@ == n,
    {
        let r = Take { base: Ghost(stream.yielded()), stream, left: n, quota: Ghost(n as int) };
        proof {
            lemma_since_self(r.stream.yielded());
        }
        r
    }

    /// The items the inner sequence has produced since construction; a
    /// bounded prefix passes every one of them through.
    pub open spec fn pulled(&self) -> Seq<S::Item> {
        since(self.stream.yielded(), self.base@)
    }
}

impl<S: CompletionStream> CompletionStream for Take<S> {
    type Item = S::Item;

    open spec fn wf(&self) -> bool {
        &&& self.stream.wf()
        &&& self.base@.is_prefix_of(self.stream.yielded())
        &&& self.yielded().len() + self.left == self.quota@
    }

    open spec fn yielded(&self) -> Seq<S::Item> {
        since(self.stream.yielded(), self.base@)
    }

    open spec fn fuel(&self) -> nat {
        self.stream.fuel()
    }

    open spec fn step(self, post: Self, r: PollNext<S::Item>) -> bool {
        &&& post.base == self.base
        &&& post.quota == self.quota
        &&& if self.left == 0 {
            // The budget is spent: the inner sequence is not polled.
            r is Ended && post == self
        } else {
            match r {
                PollNext::Pending => post.left == self.left && transition(
                    self.stream,
                    post.stream,
                    PollNext::Pending,
                ),
                PollNext::Item(v) => post.left + 1 == self.left && transition(
                    self.stream,
                    post.stream,
                    PollNext::Item(v),
                ),
                PollNext::Ended => post.left == self.left && transition(
                    self.stream,
                    post.stream,
                    PollNext::Ended,
                ),
            }
        }
    }

    fn poll_next(&mut self) -> (r: PollNext<S::Item>) {
        if self.left == 0 {
            return PollNext::Ended;
        }
        match self.stream.poll_next() {
            PollNext::Pending => PollNext::Pending,
            PollNext::Item(v) => {
                self.left = self.left - 1;
                proof {
                    lemma_since_push(old(self).stream.yielded(), old(self).base@, v);
                    lemma_prefix_push(old(self).base@, old(self).stream.yielded(), v);
                }
                PollNext::Item(v)
            },
            PollNext::Ended => PollNext::Ended,
        }
    }
}

/// A sequence with its first `n` items removed.
///
/// Each poll keeps pulling from the inner sequence until the remaining
/// skip budget is spent and an item can be passed through, or the inner
/// sequence pends or ends.  The skipped items are discarded silently.
pub struct Skip<S: CompletionStream> {
    /// The inner sequence.
    pub stream: S,
    /// How many more items are still to be discarded.
    pub to_skip: usize,
    /// The inner sequence's history at construction.
    pub base: Ghost<Seq<S::Item>>,
    /// The skip count given at construction.
    pub quota: Ghost<int>,
}

impl<S: CompletionStream> Skip<S> {
    /// Discard the first `n` items of `stream` and pass the rest through.
    pub fn new(stream: S, n: usize) -> (r: Skip<S>)
        requires
            stream.wf(),
        ensures
            r.wf(),
            r.yielded() == Seq::<S::Item>::empty(),
            r.stream == stream,
            r.to_skip == n,
            r.quota@ == n,
    {
        let r = Skip { base: Ghost(stream.yielded()), stream, to_skip: n, quota: Ghost(n as int) };
        proof {
            lemma_since_self(r.stream.yielded());
        }
        r
    }

    /// The items the inner sequence has produced since construction,
    /// discarded ones included.
    pub open spec fn pulled(&self) -> Seq<S::Item> {
        since(self.stream.yielded(), self.base@)
    }
}

impl<S: CompletionStream> CompletionStream for Skip<S> {
    type Item = S::Item;

    open spec fn wf(&self) -> bool {
        &&& self.stream.wf()
        &&& self.base@.is_prefix_of(self.stream.yielded())
        &&& self.to_skip <= self.quota@
        &&& self.to_skip > 0 ==> self.pulled().len() + self.to_skip == self.quota@
        &&& self.to_skip == 0 ==> self.pulled().len() >= self.quota@
    }

    open spec fn yielded(&self) -> Seq<S::Item> {
        if self.pulled().len() <= self.quota@ {
            Seq::empty()
        } else {
            self.pulled().skip(self.quota@)
        }
    }

    open spec fn fuel(&self) -> nat {
        self.stream.fuel()
    }

    open spec fn step(self, post: Self, r: PollNext<S::Item>) -> bool {
        &&& post.base == self.base
        &&& post.quota == self.quota
        &&& self.pulled().is_prefix_of(post.pulled())
        &&& reaches(self.stream, post.stream)
        &&& match r {
            PollNext::Pending => {
                &&& post.to_skip <= self.to_skip
                &&& post.pulled().len() + post.to_skip == self.pulled().len() + self.to_skip
            },
            PollNext::Item(v) => {
                &&& post.to_skip == 0
                &&& post.pulled().len() == self.pulled().len() + self.to_skip + 1
                &&& post.pulled().last() == v
            },
            PollNext::Ended => {
                &&& post.to_skip <= self.to_skip
                &&& post.pulled().len() + post.to_skip == self.pulled().len() + self.to_skip
                &&& ended_step(post.stream)
            },
        }
    }

    fn poll_next(&mut self) -> (r: PollNext<S::Item>) {
        proof {
            lemma_reaches_refl(self.stream);
        }
        loop
            invariant
                self.wf(),
                self.base == old(self).base,
                self.quota == old(self).quota,
                self.to_skip <= old(self).to_skip,
                old(self).pulled().is_prefix_of(self.pulled()),
                self.pulled().len() + self.to_skip == old(self).pulled().len() + old(
                    self,
                ).to_skip,
                self.yielded() == old(self).yielded(),
                self.stream.fuel() <= old(self).stream.fuel(),
                reaches(old(self).stream, self.stream),
            decreases self.stream.fuel(),
        {
            let ghost s1 = *self;
            match self.stream.poll_next() {
                PollNext::Pending => {
                    proof {
                        assert(transition(s1.stream, self.stream, PollNext::Pending));
                        lemma_reaches_extend(
                            old(self).stream,
                            s1.stream,
                            self.stream,
                            PollNext::Pending,
                        );
                    }
                    return PollNext::Pending;
                },
                PollNext::Ended => {
                    proof {
                        assert(transition(s1.stream, self.stream, PollNext::Ended));
                        lemma_reaches_extend(
                            old(self).stream,
                            s1.stream,
                            self.stream,
                            PollNext::Ended,
                        );
                    }
                    return PollNext::Ended;
                },
                PollNext::Item(v) => {
                    proof {
                        assert(transition(s1.stream, self.stream, PollNext::Item(v)));
                        lemma_reaches_extend(
                            old(self).stream,
                            s1.stream,
                            self.stream,
                            PollNext::Item(v),
                        );
                        lemma_since_push(s1.stream.yielded(), s1.base@, v);
                        lemma_prefix_push(s1.base@, s1.stream.yielded(), v);
                        assert(self.pulled() == s1.pulled().push(v));
                    }
                    if self.to_skip == 0 {
                        proof {
                            assert_seqs_equal!(self.yielded() == s1.yielded().push(v));
                        }
                        return PollNext::Item(v);
                    }
                    self.to_skip = self.to_skip - 1;
                    proof {
                        assert(self.yielded() == old(self).yielded());
                    }
                },
            }
        }
    }
}

/// Two sequences laid end to end: every item of the first, then every item
/// of the second, with no interleaving.
///
/// The second sequence is not polled at all until the first has reported
/// `Ended`; from then on the first is never polled again.
pub struct Chain<A: CompletionStream, B: CompletionStream<Item = A::Item>> {
    /// The sequence whose items come first.
    pub first: A,
    /// The sequence whose items follow.
    pub second: B,
    /// Whether the first sequence has reported `Ended`.
    pub first_done: bool,
    /// The first sequence's history at construction.
    pub first_base: Ghost<Seq<A::Item>>,
    /// The second sequence's history at construction.
    pub second_base: Ghost<Seq<A::Item>>,
}

impl<A: CompletionStream, B: CompletionStream<Item = A::Item>> Chain<A, B> {
    /// Concatenate `first` and `second`.
    pub fn new(first: A, second: B) -> (r: Chain<A, B>)
        requires
            first.wf(),
            second.wf(),
        ensures
            r.wf(),
            r.yielded() == Seq::<A::Item>::empty(),
            r.first == first,
            r.second == second,
            !r.first_done,
    {
        let r = Chain {
            first_base: Ghost(first.yielded()),
            second_base: Ghost(second.yielded()),
            first,
            second,
            first_done: false,
        };
        proof {
            lemma_since_self(r.first.yielded());
            lemma_since_self(r.second.yielded());
            assert_seqs_equal!(r.yielded() == Seq::<A::Item>::empty());
        }
        r
    }

    /// The items of the first sequence that this adapter has passed on.
    pub open spec fn from_first(&self) -> Seq<A::Item> {
        since(self.first.yielded(), self.first_base@)
    }

    /// The items of the second sequence that this adapter has passed on.
    pub open spec fn from_second(&self) -> Seq<A::Item> {
        since(self.second.yielded(), self.second_base@)
    }
}

impl<A: CompletionStream, B: CompletionStream<Item = A::Item>> CompletionStream for Chain<A, B> {
    type Item = A::Item;

    open spec fn wf(&self) -> bool {
        &&& self.first.wf()
        &&& self.second.wf()
        &&& self.first_base@.is_prefix_of(self.first.yielded())
        &&& self.second_base@.is_prefix_of(self.second.yielded())
        &&& !self.first_done ==> self.from_second().len() == 0
    }

    open spec fn yielded(&self) -> Seq<A::Item> {
        self.from_first() + self.from_second()
    }

    open spec fn fuel(&self) -> nat {
        self.first.fuel() + self.second.fuel()
    }

    open spec fn step(self, post: Self, r: PollNext<A::Item>) -> bool {
        &&& post.first_base == self.first_base
        &&& post.second_base == self.second_base
        &&& if self.first_done {
            // The switch is permanent: only the second sequence is polled.
            &&& post.first == self.first
            &&& post.first_done
            &&& transition(self.second, post.second, r)
        } else {
            match r {
                PollNext::Pending => {
                    // Either the first sequence pended, or it ended in this
                    // very poll and the second pended.
                    ||| (!post.first_done && post.second == self.second && transition(
                        self.first,
                        post.first,
                        PollNext::Pending,
                    ))
                    ||| (post.first_done && transition(self.first, post.first, PollNext::Ended)
                        && transition(self.second, post.second, PollNext::Pending))
                },
                PollNext::Item(v) => {
                    ||| (!post.first_done && post.second == self.second && transition(
                        self.first,
                        post.first,
                        PollNext::Item(v),
                    ))
                    ||| (post.first_done && transition(self.first, post.first, PollNext::Ended)
                        && transition(self.second, post.second, PollNext::Item(v)))
                },
                PollNext::Ended => {
                    // Both ended in this very poll.
                    &&& post.first_done
                    &&& transition(self.first, post.first, PollNext::Ended)
                    &&& transition(self.second, post.second, PollNext::Ended)
                },
            }
        }
    }

    fn poll_next(&mut self) -> (r: PollNext<A::Item>) {
        if !self.first_done {
            match self.first.poll_next() {
                PollNext::Pending => {
                    return PollNext::Pending;
                },
                PollNext::Item(v) => {
                    proof {
                        lemma_since_push(old(self).first.yielded(), old(self).first_base@, v);
                        lemma_prefix_push(old(self).first_base@, old(self).first.yielded(), v);
                        assert(self.from_first() == old(self).from_first().push(v));
                        assert(self.from_second() == old(self).from_second());
                        assert_seqs_equal!(self.yielded() == old(self).yielded().push(v));
                    }
                    return PollNext::Item(v);
                },
                PollNext::Ended => {
                    self.first_done = true;
                },
            }
        }
        let ghost mid = *self;
        match self.second.poll_next() {
            PollNext::Pending => PollNext::Pending,
            PollNext::Item(v) => {
                proof {
                    lemma_since_push(mid.second.yielded(), mid.second_base@, v);
                    lemma_prefix_push(mid.second_base@, mid.second.yielded(), v);
                    assert(self.from_second() == mid.from_second().push(v));
                    assert(self.from_first() == old(self).from_first());
                    assert(mid.from_second() == old(self).from_second());
                    lemma_concat_push(old(self).from_first(), old(self).from_second(), v);
                }
                PollNext::Item(v)
            },
            PollNext::Ended => PollNext::Ended,
        }
    }
}

/// A sequence thinned to every `step`-th item: the first item is passed
/// through, then `step - 1` items are discarded, and so on.
///
/// A zero step would loop for ever discarding nothing; it is a usage
/// error, excluded up front by the constructor's precondition.
pub struct StepBy<S: CompletionStream> {
    /// The inner sequence.
    pub stream: S,
    /// The stride; at least one.
    pub stride: usize,
    /// How many inner items are still to be discarded before the next
    /// pass-through.
    pub until: usize,
    /// The inner sequence's history at construction.
    pub base: Ghost<Seq<S::Item>>,
    /// The items passed through so far.
    pub outs: Ghost<Seq<S::Item>>,
}

/// The passed-through items of a stride sit at the multiples of the
/// stride: `j * stride + slack` stays below `len * stride` whenever
/// `j < len` and `slack < stride`.
proof fn lemma_stride_bound(j: int, len: int, stride: int, slack: int)
    requires
        0 <= j < len,
        1 <= stride,
        0 <= slack < stride,
    ensures
        j * stride + slack < len * stride,
{
    assert(j * stride + slack < len * stride) by (nonlinear_arith)
        requires
            0 <= j < len,
            1 <= stride,
            0 <= slack < stride,
    ;
}

impl<S: CompletionStream> StepBy<S> {
    /// Pass through every `step`-th item of `stream`, starting with its
    /// first.
    pub fn new(stream: S, step: usize) -> (r: StepBy<S>)
        requires
            stream.wf(),
            step >= 1,
        ensures
            r.wf(),
            r.yielded() == Seq::<S::Item>::empty(),
            r.stream == stream,
            r.stride == step,
    {
        let r = StepBy {
            base: Ghost(stream.yielded()),
            stream,
            stride: step,
            until: 0,
            outs: Ghost(Seq::empty()),
        };
        proof {
            lemma_since_self(r.stream.yielded());
        }
        r
    }

    /// The items the inner sequence has produced since construction,
    /// discarded ones included.
    pub open spec fn pulled(&self) -> Seq<S::Item> {
        since(self.stream.yielded(), self.base@)
    }
}

impl<S: CompletionStream> CompletionStream for StepBy<S> {
    type Item = S::Item;

    open spec fn wf(&self) -> bool {
        &&& self.stream.wf()
        &&& self.base@.is_prefix_of(self.stream.yielded())
        &&& self.stride >= 1
        &&& self.until < self.stride
        &&& self.pulled().len() + self.until == self.outs@.len() * self.stride
        &&& forall|j: int|
            0 <= j < self.outs@.len() ==> #[trigger] self.outs@[j] == self.pulled()[j
                * self.stride]
    }

    open spec fn fuel(&self) -> nat {
        self.stream.fuel()
    }

    open spec fn yielded(&self) -> Seq<S::Item> {
        self.outs@
    }

    open spec fn step(self, post: Self, r: PollNext<S::Item>) -> bool {
        &&& post.base == self.base
        &&& post.stride == self.stride
        &&& self.pulled().is_prefix_of(post.pulled())
        &&& reaches(self.stream, post.stream)
        &&& match r {
            PollNext::Pending => {
                &&& post.until <= self.until
                &&& post.pulled().len() + post.until == self.pulled().len() + self.until
            },
            PollNext::Item(v) => {
                &&& post.until == self.stride - 1
                &&& post.pulled().len() == self.pulled().len() + self.until + 1
                &&& post.pulled().last() == v
            },
            PollNext::Ended => {
                &&& post.until <= self.until
                &&& post.pulled().len() + post.until == self.pulled().len() + self.until
                &&& ended_step(post.stream)
            },
        }
    }

    fn poll_next(&mut self) -> (r: PollNext<S::Item>) {
        proof {
            lemma_reaches_refl(self.stream);
        }
        loop
            invariant
                self.wf(),
                self.base == old(self).base,
                self.stride == old(self).stride,
                self.outs == old(self).outs,
                self.until <= old(self).until,
                old(self).pulled().is_prefix_of(self.pulled()),
                self.pulled().len() + self.until == old(self).pulled().len() + old(self).until,
                self.stream.fuel() <= old(self).stream.fuel(),
                reaches(old(self).stream, self.stream),
            decreases self.stream.fuel(),
        {
            let ghost s1 = *self;
            match self.stream.poll_next() {
                PollNext::Pending => {
                    proof {
                        assert(transition(s1.stream, self.stream, PollNext::Pending));
                        lemma_reaches_extend(
                            old(self).stream,
                            s1.stream,
                            self.stream,
                            PollNext::Pending,
                        );
                    }
                    return PollNext::Pending;
                },
                PollNext::Ended => {
                    proof {
                        assert(transition(s1.stream, self.stream, PollNext::Ended));
                        lemma_reaches_extend(
                            old(self).stream,
                            s1.stream,
                            self.stream,
                            PollNext::Ended,
                        );
                    }
                    return PollNext::Ended;
                },
                PollNext::Item(v) => {
                    proof {
                        assert(transition(s1.stream, self.stream, PollNext::Item(v)));
                        lemma_reaches_extend(
                            old(self).stream,
                            s1.stream,
                            self.stream,
                            PollNext::Item(v),
                        );
                        lemma_since_push(s1.stream.yielded(), s1.base@, v);
                        lemma_prefix_push(s1.base@, s1.stream.yielded(), v);
                        assert(self.pulled() == s1.pulled().push(v));
                    }
                    if self.until == 0 {
                        self.until = self.stride - 1;
                        self.outs = Ghost(self.outs@.push(v));
                        proof {
                            let l = s1.outs@.len() as int;
                            let st = self.stride as int;
                            assert((l + 1) * st == l * st + st) by (nonlinear_arith);
                            assert forall|j: int| 0 <= j < l implies #[trigger] self.outs@[j]
                                == self.pulled()[j * st] by {
                                lemma_stride_bound(j, l, st, 0);
                            }
                        }
                        return PollNext::Item(v);
                    }
                    self.until = self.until - 1;
                    proof {
                        let l = s1.outs@.len() as int;
                        let st = self.stride as int;
                        assert forall|j: int| 0 <= j < l implies #[trigger] self.outs@[j]
                            == self.pulled()[j * st] by {
                            lemma_stride_bound(j, l, st, s1.until as int);
                        }
                    }
                },
            }
        }
    }
}

} // verus!
