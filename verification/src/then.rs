//! Asynchronous per-item mapping: each item of the inner sequence is
//! turned into a single-value completion operation, which is driven to
//! its value before the next item is pulled.
//!
//! At most one per-item operation is in flight at a time; it is owned by
//! the adapter and — in keeping with the completion contract — polled on
//! until it finishes, never abandoned.

use vstd::prelude::*;

use crate::contract::{transition, transition_f, CompletionFuture, CompletionStream};
use crate::poll::{Poll, PollNext};
use crate::seq_facts::{lemma_prefix_push, lemma_since_push, lemma_since_self, since};

verus! {

/// Whether `v` is a possible value of the operation that `f` makes from
/// the item `x`.
pub open spec fn then_outcome<I, Fut: CompletionFuture, F: Fn(I) -> Fut>(
    f: F,
    x: I,
    v: Fut::Output,
) -> bool {
    exists|fut: Fut| #[trigger] call_ensures(f, (x,), fut) && fut.may_finish(v)
}

/// What every operation handed out by `f` must offer: a well-formed,
/// unfinished state, with at most `k` polls of fuel.
pub open spec fn then_fn_ok<I, Fut: CompletionFuture, F: Fn(I) -> Fut>(f: F, k: nat) -> bool {
    forall|x: I, fut: Fut|
        #[trigger] call_ensures(f, (x,), fut) ==> fut.wf() && !fut.done() && fut.fuel() <= k
}

/// A sequence whose items are produced by driving, one at a time, the
/// single-value operations a user function makes from the inner
/// sequence's items.
#[verifier::reject_recursive_types(Fut)]
pub struct Then<S: CompletionStream, F: Fn(S::Item) -> Fut, Fut: CompletionFuture> {
    /// The inner sequence.
    pub stream: S,
    /// The function making one operation per item.
    pub f: F,
    /// The operation currently being driven, if any.
    pub in_flight: Option<Fut>,
    /// The inner sequence's history at construction.
    pub base: Ghost<Seq<S::Item>>,
    /// The items passed on so far.
    pub outs: Ghost<Seq<Fut::Output>>,
    /// A bound on the fuel of every operation `f` hands out.
    pub bound: Ghost<nat>,
}

impl<S: CompletionStream, F: Fn(S::Item) -> Fut, Fut: CompletionFuture> Then<S, F, Fut> {
    /// Drive, for every item of `stream`, the operation `f` makes from
    /// it, and yield its value.
    pub fn new(stream: S, f: F) -> (r: Then<S, F, Fut>)
        requires
            stream.wf(),
            forall|x: S::Item| #[trigger] call_requires(f, (x,)),
            exists|k: nat| then_fn_ok::<S::Item, Fut, F>(f, k),
        ensures
            r.wf(),
            r.yielded() == Seq::<Fut::Output>::empty(),
            r.stream == stream,
            r.f == f,
            r.in_flight is None,
    {
        let ghost k = choose|k: nat| then_fn_ok::<S::Item, Fut, F>(f, k);
        let r = Then {
            base: Ghost(stream.yielded()),
            stream,
            f,
            in_flight: None,
            outs: Ghost(Seq::empty()),
            bound: Ghost(k),
        };
        proof {
            lemma_since_self(r.stream.yielded());
        }
        r
    }

    /// The items the inner sequence has produced since construction.
    pub open spec fn pulled(&self) -> Seq<S::Item> {
        since(self.stream.yielded(), self.base@)
    }
}

impl<S: CompletionStream, F: Fn(S::Item) -> Fut, Fut: CompletionFuture> CompletionStream for Then<
    S,
    F,
    Fut,
> {
    type Item = Fut::Output;

    open spec fn wf(&self) -> bool {
        &&& self.stream.wf()
        &&& self.base@.is_prefix_of(self.stream.yielded())
        &&& forall|x: S::Item| #[trigger] call_requires(self.f, (x,))
        &&& then_fn_ok::<S::Item, Fut, F>(self.f, self.bound@)
        &&& match self.in_flight {
            Some(fut) => {
                &&& fut.wf()
                &&& !fut.done()
                &&& fut.fuel() <= self.bound@
                &&& self.pulled().len() == self.outs@.len() + 1
                &&& forall|v: Fut::Output|
                    #[trigger] fut.may_finish(v) ==> then_outcome(self.f, self.pulled().last(), v)
            },
            None => self.pulled().len() == self.outs@.len(),
        }
        &&& forall|i: int|
            0 <= i < self.outs@.len() ==> then_outcome(
                self.f,
                self.pulled()[i],
                #[trigger] self.outs@[i],
            )
    }

    open spec fn yielded(&self) -> Seq<Fut::Output> {
        self.outs@
    }

    open spec fn fuel(&self) -> nat {
        self.stream.fuel() * (self.bound@ + 2) + (match self.in_flight {
            Some(fut) => fut.fuel() + 1,
            None => 0,
        })
    }

    open spec fn step(self, post: Self, r: PollNext<Fut::Output>) -> bool {
        &&& post.base == self.base
        &&& post.f == self.f
        &&& post.bound == self.bound
        &&& self.pulled().is_prefix_of(post.pulled())
        &&& match r {
            PollNext::Pending => {
                // No item left the adapter, and whatever was mid-flight
                // was polled on — never dropped.
                &&& post.outs == self.outs
                &&& match self.in_flight {
                    Some(fut) => {
                        // The in-flight operation was driven one poll on
                        // and pended; the inner sequence was not touched.
                        &&& post.stream == self.stream
                        &&& post.in_flight matches Some(fut2) && transition_f(
                            fut,
                            fut2,
                            Poll::Pending,
                        )
                    },
                    None => {
                        // Either the inner sequence pended, or it yielded
                        // an item whose fresh operation pended at once.
                        ||| (post.in_flight is None && transition(
                            self.stream,
                            post.stream,
                            PollNext::Pending,
                        ))
                        ||| (transition(
                            self.stream,
                            post.stream,
                            PollNext::Item(post.pulled().last()),
                        ) && (post.in_flight matches Some(fut1) && exists|fut0: Fut|
                            #![auto]
                            call_ensures(self.f, (post.pulled().last(),), fut0) && transition_f(
                                fut0,
                                fut1,
                                Poll::Pending,
                            )))
                    },
                }
            },
            PollNext::Item(v) => {
                // The value of the operation made from the most recent
                // inner item, driven to its finish.
                &&& post.outs@ == self.outs@.push(v)
                &&& post.in_flight is None
                &&& post.pulled().len() == self.outs@.len() + 1
                &&& then_outcome(self.f, post.pulled().last(), v)
                &&& match self.in_flight {
                    Some(fut) => {
                        &&& post.stream == self.stream
                        &&& exists|futd: Fut| #[trigger] transition_f(fut, futd, Poll::Finished(v))
                    },
                    None => {
                        &&& transition(
                            self.stream,
                            post.stream,
                            PollNext::Item(post.pulled().last()),
                        )
                        &&& exists|fut0: Fut, futd: Fut|
                            #![auto]
                            call_ensures(self.f, (post.pulled().last(),), fut0) && transition_f(
                                fut0,
                                futd,
                                Poll::Finished(v),
                            )
                    },
                }
            },
            PollNext::Ended => {
                &&& post.outs == self.outs
                &&& self.in_flight is None
                &&& post.in_flight is None
                &&& transition(self.stream, post.stream, PollNext::Ended)
            },
        }
    }

    fn poll_next(&mut self) -> (r: PollNext<Fut::Output>) {
        let ghost f0 = old(self).stream.fuel();
        let mut fut: Fut;
        match self.in_flight.take() {
            Some(running) => {
                fut = running;
            },
            None => {
                let ghost s1 = *self;
                match self.stream.poll_next() {
                    PollNext::Pending => {
                        proof {
                            let k = self.bound@;
                            let fa = self.stream.fuel();
                            let fb = s1.stream.fuel();
                            assert(fa * (k + 2) < fb * (k + 2)) by (nonlinear_arith)
                                requires
                                    fa < fb,
                                    k >= 0,
                            ;
                        }
                        return PollNext::Pending;
                    },
                    PollNext::Ended => {
                        proof {
                            let k = self.bound@;
                            let fa = self.stream.fuel();
                            let fb = s1.stream.fuel();
                            assert(fa * (k + 2) <= fb * (k + 2)) by (nonlinear_arith)
                                requires
                                    fa <= fb,
                                    k >= 0,
                            ;
                        }
                        return PollNext::Ended;
                    },
                    PollNext::Item(x) => {
                        proof {
                            lemma_since_push(s1.stream.yielded(), s1.base@, x);
                            lemma_prefix_push(s1.base@, s1.stream.yielded(), x);
                            assert(self.pulled() == s1.pulled().push(x));
                        }
                        fut = (self.f)(x);
                    },
                }
            },
        }
        let ghost mid = *self;
        let ghost fut_pre = fut;
        match fut.poll() {
            Poll::Pending => {
                self.in_flight = Some(fut);
                proof {
                    assert(transition_f(fut_pre, self.in_flight.unwrap(), Poll::Pending));
                    let k = self.bound@;
                    let fm = mid.stream.fuel();
                    if fm < f0 {
                        // A fresh operation: the inner sequence paid for
                        // it with one unit of its own fuel.
                        assert((fm + 1) * (k + 2) <= f0 * (k + 2)) by (nonlinear_arith)
                            requires
                                fm < f0,
                                k >= 0,
                        ;
                        assert((fm + 1) * (k + 2) == fm * (k + 2) + (k + 2)) by (nonlinear_arith);
                    }
                }
                PollNext::Pending
            },
            Poll::Finished(v) => {
                let ghost fut_done = fut;
                self.outs = Ghost(self.outs@.push(v));
                proof {
                    assert(transition_f(fut_pre, fut_done, Poll::Finished(v)));
                    let k = self.bound@;
                    let fm = mid.stream.fuel();
                    if fm < f0 {
                        assert((fm + 1) * (k + 2) <= f0 * (k + 2)) by (nonlinear_arith)
                            requires
                                fm < f0,
                                k >= 0,
                        ;
                        assert((fm + 1) * (k + 2) == fm * (k + 2) + (k + 2)) by (nonlinear_arith);
                    }
                }
                PollNext::Item(v)
            },
        }
    }
}

} // verus!
