//! The synchronous bridge: blocking iteration over a completion
//! sequence.
//!
//! Each call for the next item drives the sequence on the calling thread
//! until it produces one or ends; a pending poll is simply followed by
//! another.  What an execution engine would do with wake-ups between the
//! polls is out of scope here — the sequence's own fuel bounds how long
//! the wait can last.

use vstd::prelude::*;

use crate::contract::{
    ended_step, lemma_reaches_extend, lemma_reaches_refl, reaches, transition, CompletionStream,
};
use crate::poll::PollNext;

verus! {

/// Convert a completion sequence into a blocking iteration.
pub fn block_on<S: CompletionStream>(stream: S) -> (r: BlockOn<S>)
    requires
        stream.wf(),
    ensures
        r.stream == stream,
{
    BlockOn { stream }
}

/// Blocking iteration over a completion sequence; made by [`block_on`].
pub struct BlockOn<S> {
    /// The sequence being driven.
    pub stream: S,
}

impl<S: CompletionStream> BlockOn<S> {
    /// Drive the sequence until its next item, blocking through pending
    /// polls; give back the item, or nothing once the sequence ends.
    pub fn next(&mut self) -> (r: Option<S::Item>)
        requires
            old(self).stream.wf(),
        ensures
            final(self).stream.wf(),
            reaches(old(self).stream, final(self).stream),
            match r {
                Some(v) => final(self).stream.yielded() == old(self).stream.yielded().push(v),
                None => final(self).stream.yielded() == old(self).stream.yielded() && ended_step(
                    final(self).stream,
                ),
            },
    {
        proof {
            lemma_reaches_refl(self.stream);
        }
        loop
            invariant
                self.stream.wf(),
                self.stream.yielded() == old(self).stream.yielded(),
                reaches(old(self).stream, self.stream),
            decreases self.stream.fuel(),
        {
            let ghost s1 = *self;
            match self.stream.poll_next() {
                PollNext::Pending => {
                    proof {
                        assert(transition(s1.stream, self.stream, PollNext::Pending));
                        lemma_reaches_extend(
                            old(self).stream,
                            s1.stream,
                            self.stream,
                            PollNext::Pending,
                        );
                    }
                },
                PollNext::Item(v) => {
                    proof {
                        assert(transition(s1.stream, self.stream, PollNext::Item(v)));
                        lemma_reaches_extend(
                            old(self).stream,
                            s1.stream,
                            self.stream,
                            PollNext::Item(v),
                        );
                    }
                    return Some(v);
                },
                PollNext::Ended => {
                    proof {
                        assert(transition(s1.stream, self.stream, PollNext::Ended));
                        lemma_reaches_extend(
                            old(self).stream,
                            s1.stream,
                            self.stream,
                            PollNext::Ended,
                        );
                    }
                    return None;
                },
            }
        }
    }

    /// The bounds this iteration knows on the number of items to come.
    /// This model keeps no size estimate, so the answer is always the
    /// uninformative one.
    pub fn size_hint(&self) -> (r: (usize, Option<usize>))
        ensures
            r.0 == 0,
            r.1 is None,
    {
        (0, None)
    }
}

} // verus!
