//! Concrete sequence sources.
//!
//! [`Iter`] yields the elements of a vector in order and is never pending;
//! [`Script`] replays an arbitrary, prescribed succession of poll results,
//! which makes pending polls — and even ill-behaved successions such as an
//! item after an end report — expressible, exactly what the fusing adapter
//! exists to guard against.

use vstd::prelude::*;

use crate::contract::CompletionFuture;
use crate::lift::Stream;
use crate::poll::{Poll, PollNext};

verus! {

/// An ordinary sequence yielding the elements of a vector in order.
pub struct Iter<T> {
    /// The elements not yet yielded, in order.
    pub items: Vec<T>,
    /// The elements yielded so far.
    pub hist: Ghost<Seq<T>>,
}

/// Create a sequence that yields the elements of `items` in order, is
/// never pending, and ends once they are exhausted.
pub fn iter<T>(items: Vec<T>) -> (s: Iter<T>)
    ensures
        s.wf(),
        s.yielded() == Seq::<T>::empty(),
        s.remaining() == items@,
{
    Iter { items, hist: Ghost(Seq::empty()) }
}

impl<T> Iter<T> {
    /// The elements this sequence has still to yield, in order.
    pub open spec fn remaining(&self) -> Seq<T> {
        self.items@
    }
}

impl<T> Stream for Iter<T> {
    type Item = T;

    open spec fn wf(&self) -> bool {
        true
    }

    open spec fn yielded(&self) -> Seq<T> {
        self.hist@
    }

    open spec fn fuel(&self) -> nat {
        self.items@.len()
    }

    open spec fn step(self, post: Self, r: PollNext<T>) -> bool {
        match r {
            PollNext::Pending => false,
            PollNext::Item(v) => {
                &&& self.items@.len() > 0
                &&& v == self.items@[0]
                &&& post.items@ == self.items@.remove(0)
            },
            PollNext::Ended => self.items@.len() == 0 && post == self,
        }
    }

    fn poll_next(&mut self) -> (r: PollNext<T>) {
        if self.items.len() == 0 {
            PollNext::Ended
        } else {
            let v = self.items.remove(0);
            self.hist = Ghost(self.hist@.push(v));
            PollNext::Item(v)
        }
    }
}

/// An ordinary sequence that replays a prescribed succession of poll
/// results, one per poll, and reports `Ended` once the prescription is
/// exhausted.
///
/// Nothing constrains the prescription: it may pend arbitrarily often, or
/// misbehave by producing items after an end report.
pub struct Script<T> {
    /// The poll results not yet replayed, in order.
    pub steps: Vec<PollNext<T>>,
    /// The items yielded so far.
    pub hist: Ghost<Seq<T>>,
}

/// Create a sequence that replays `steps`, one entry per poll, and reports
/// `Ended` once they are exhausted.
pub fn script<T>(steps: Vec<PollNext<T>>) -> (s: Script<T>)
    ensures
        s.wf(),
        s.yielded() == Seq::<T>::empty(),
        s.steps@ == steps@,
{
    Script { steps, hist: Ghost(Seq::empty()) }
}

impl<T> Stream for Script<T> {
    type Item = T;

    open spec fn wf(&self) -> bool {
        true
    }

    open spec fn yielded(&self) -> Seq<T> {
        self.hist@
    }

    open spec fn fuel(&self) -> nat {
        self.steps@.len()
    }

    open spec fn step(self, post: Self, r: PollNext<T>) -> bool {
        if self.steps@.len() == 0 {
            r is Ended && post == self
        } else {
            r == self.steps@[0] && post.steps@ == self.steps@.remove(0)
        }
    }

    fn poll_next(&mut self) -> (r: PollNext<T>) {
        if self.steps.len() == 0 {
            PollNext::Ended
        } else {
            let entry = self.steps.remove(0);
            match entry {
                PollNext::Pending => PollNext::Pending,
                PollNext::Item(v) => {
                    self.hist = Ghost(self.hist@.push(v));
                    PollNext::Item(v)
                },
                PollNext::Ended => PollNext::Ended,
            }
        }
    }
}

/// A single-value completion operation that is already decided: its
/// first poll finishes with the stored value.
pub struct Ready<T> {
    /// The value to finish with; taken when the operation finishes.
    pub value: Option<T>,
}

/// Create an operation that finishes with `value` on its first poll.
pub fn ready<T>(value: T) -> (r: Ready<T>)
    ensures
        r.wf(),
        !r.done(),
        r.value == Some(value),
{
    Ready { value: Some(value) }
}

impl<T> CompletionFuture for Ready<T> {
    type Output = T;

    open spec fn wf(&self) -> bool {
        true
    }

    open spec fn done(&self) -> bool {
        self.value is None
    }

    open spec fn may_finish(&self, v: T) -> bool {
        self.value == Some(v)
    }

    open spec fn fuel(&self) -> nat {
        0
    }

    open spec fn step(self, post: Self, r: Poll<T>) -> bool {
        match r {
            Poll::Pending => false,
            Poll::Finished(v) => self.value == Some(v) && post.value is None,
        }
    }

    fn poll(&mut self) -> (r: Poll<T>) {
        match self.value.take() {
            Some(v) => Poll::Finished(v),
            None => {
                proof {
                    assert(false);
                }
                Poll::Pending
            },
        }
    }
}

/// A single-value completion operation that stays pending a prescribed
/// number of polls before finishing with its value.
pub struct Delayed<T> {
    /// How many more polls report `Pending`.
    pub pends: usize,
    /// The value to finish with; taken when the operation finishes.
    pub value: Option<T>,
}

/// Create an operation that reports `Pending` `pends` times and then
/// finishes with `value`.
pub fn delayed<T>(pends: usize, value: T) -> (r: Delayed<T>)
    ensures
        r.wf(),
        !r.done(),
        r.value == Some(value),
        r.pends == pends,
{
    Delayed { pends, value: Some(value) }
}

impl<T> CompletionFuture for Delayed<T> {
    type Output = T;

    open spec fn wf(&self) -> bool {
        true
    }

    open spec fn done(&self) -> bool {
        self.value is None
    }

    open spec fn may_finish(&self, v: T) -> bool {
        self.value == Some(v)
    }

    open spec fn fuel(&self) -> nat {
        self.pends as nat
    }

    open spec fn step(self, post: Self, r: Poll<T>) -> bool {
        match r {
            Poll::Pending => self.pends > 0 && post.pends + 1 == self.pends && post.value
                == self.value,
            Poll::Finished(v) => self.pends == 0 && self.value == Some(v) && post.value is None,
        }
    }

    fn poll(&mut self) -> (r: Poll<T>) {
        if self.pends > 0 {
            self.pends = self.pends - 1;
            return Poll::Pending;
        }
        match self.value.take() {
            Some(v) => Poll::Finished(v),
            None => {
                proof {
                    assert(false);
                }
                Poll::Pending
            },
        }
    }
}

} // verus!
