//! The algebra's laws, stated on their own and proved once and for all.
//!
//! Each law is a consequence of the open models and transition relations
//! of the adapters and reductions; stating them here makes the guarantees
//! of the library readable in one place, for every inner sequence and
//! every poll history.

use vstd::assert_seqs_equal;
use vstd::prelude::*;

use crate::contract::{
    ended_step, reaches, step_chain, transition, CompletionFuture, CompletionStream,
};
use crate::lift::MustComplete;
use crate::poll::{Poll, PollNext};
use crate::reduce::{counted_value, folds_to, Any, All, Collect, CollectOption, Count, Fold, Nth};
use crate::seq_facts::{kept, since};
use crate::sequencing::{Chain, Fuse, Skip, StepBy, Take};
use crate::source::Iter;
use crate::transform::{Filter, Mapped};

verus! {

/// What any run of polls does to a vector-backed source: it hands out a
/// consecutive prefix of the remaining elements, in order, and leaves
/// exactly the rest.  This pins every item an adapter pulls from such a
/// source to the concrete elements.
proof fn lemma_iter_chain<T>(states: Seq<MustComplete<Iter<T>>>, results: Seq<PollNext<T>>)
    requires
        step_chain(states, results),
    ensures
        ({
            let pre = states.first();
            let post = states.last();
            let d = post.yielded().len() - pre.yielded().len();
            &&& pre.yielded().is_prefix_of(post.yielded())
            &&& 0 <= d <= pre.stream.items@.len()
            &&& post.stream.items@ == pre.stream.items@.skip(d)
            &&& post.yielded() == pre.yielded() + pre.stream.items@.take(d)
        }),
    decreases results.len(),
{
    let pre = states.first();
    let post = states.last();
    if results.len() == 0 {
        assert(post == pre);
        assert_seqs_equal!(pre.stream.items@.skip(0) == pre.stream.items@);
        assert_seqs_equal!(pre.yielded() + pre.stream.items@.take(0) == pre.yielded());
        assert_seqs_equal!(pre.yielded() == post.yielded().take(pre.yielded().len() as int));
    } else {
        let n = results.len() as int;
        let states1 = states.drop_last();
        let results1 = results.drop_last();
        assert(step_chain(states1, results1)) by {
            assert forall|i: int|
                0 <= i < results1.len() implies transition(
                states1[i],
                states1[i + 1],
                #[trigger] results1[i],
            ) by {
                assert(transition(states[i], states[i + 1], results[i]));
            }
        }
        lemma_iter_chain(states1, results1);
        let b = states1.last();
        let r = results.last();
        assert(transition(b, post, r)) by {
            assert(transition(states[n - 1], states[n], results[n - 1]));
            assert(states1.last() == states[n - 1]);
        }
        assert(states1.first() == pre);
        let dm = b.yielded().len() - pre.yielded().len();
        match r {
            PollNext::Pending => {
                // A vector-backed source is never pending.
                assert(false);
            },
            PollNext::Item(v) => {
                assert(v == b.stream.items@[0]);
                assert(b.stream.items@ == pre.stream.items@.skip(dm));
                assert(pre.stream.items@[dm] == v);
                assert_seqs_equal!(post.stream.items@ == pre.stream.items@.skip(dm + 1));
                assert(post.yielded() == b.yielded().push(v));
                assert_seqs_equal!(pre.stream.items@.take(dm + 1) ==
                    pre.stream.items@.take(dm).push(v));
                assert_seqs_equal!(post.yielded() ==
                    pre.yielded() + pre.stream.items@.take(dm + 1));
                assert_seqs_equal!(pre.yielded() ==
                    post.yielded().take(pre.yielded().len() as int));
            },
            PollNext::Ended => {
                assert(post.stream == b.stream);
                assert(post.yielded() == b.yielded());
                assert_seqs_equal!(pre.yielded() ==
                    post.yielded().take(pre.yielded().len() as int));
            },
        }
    }
}

/// Source-pinning law: however many polls an adapter spends on a
/// vector-backed source, what it pulled is a consecutive prefix of the
/// source's elements, in order, and what remains is exactly the rest.
pub proof fn lemma_source_run<T>(pre: MustComplete<Iter<T>>, post: MustComplete<Iter<T>>)
    requires
        reaches(pre, post),
    ensures
        pre.yielded().is_prefix_of(post.yielded()),
        post.yielded().len() - pre.yielded().len() <= pre.stream.items@.len(),
        post.stream.items@ == pre.stream.items@.skip(
            post.yielded().len() - pre.yielded().len(),
        ),
        post.yielded() == pre.yielded() + pre.stream.items@.take(
            post.yielded().len() - pre.yielded().len(),
        ),
{
    let (states, results) = choose|states: Seq<MustComplete<Iter<T>>>, results: Seq<PollNext<T>>|
        #![auto]
        step_chain(states, results) && states.first() == pre && states.last() == post;
    lemma_iter_chain(states, results);
}

/// A vector-backed source that has just reported its end has no elements
/// left: everything it held has been handed out.
pub proof fn lemma_source_ended<T>(post: MustComplete<Iter<T>>)
    requires
        ended_step(post),
    ensures
        post.stream.items@.len() == 0,
{
    let pre = choose|pre: MustComplete<Iter<T>>| #[trigger] transition(pre, post, PollNext::Ended);
}

/// Deciding law for counting a bounded prefix: the count is the number
/// of items the prefix passed through, and the poll that decided it
/// found either the budget spent or the underlying sequence ended — the
/// two sides of `min(budget, length)`.
pub proof fn lemma_take_count_decides<S: CompletionStream>(
    pre: Count<Take<S>>,
    post: Count<Take<S>>,
    c: usize,
)
    requires
        pre.step(post, Poll::Finished(c)),
    ensures
        c == counted_value(post.pulled().len()),
        post.stream.left == 0 || ended_step(post.stream.stream),
{
    let mid = choose|mid: Take<S>| #[trigger] transition(mid, post.stream, PollNext::Ended);
    if mid.left != 0 {
        assert(transition(mid.stream, post.stream.stream, PollNext::Ended));
    }
}

/// Deciding law for counting a bounded suffix: the count is what the
/// suffix passed through, and the deciding poll found the underlying
/// sequence ended.
pub proof fn lemma_skip_count_decides<S: CompletionStream>(
    pre: Count<Skip<S>>,
    post: Count<Skip<S>>,
    c: usize,
)
    requires
        pre.step(post, Poll::Finished(c)),
    ensures
        c == counted_value(post.pulled().len()),
        ended_step(post.stream.stream),
{
    let mid = choose|mid: Skip<S>| #[trigger] transition(mid, post.stream, PollNext::Ended);
    assert(ended_step(post.stream.stream));
}

/// Mapping law: a mapped sequence yields one item per inner item, in
/// order, each a possible result of the user function on the inner item
/// at the same position.
pub proof fn lemma_map_pointwise<S: CompletionStream, U, F: Fn(S::Item) -> U>(
    m: Mapped<S, U, F>,
    i: int,
)
    requires
        m.wf(),
        0 <= i < m.yielded().len(),
    ensures
        m.yielded().len() == m.pulled().len(),
        call_ensures(m.f, (m.pulled()[i],), m.yielded()[i]),
{
}

/// Filtering law: a filtered sequence yields exactly the inner items the
/// predicate's recorded verdicts accepted, in their original order, and
/// every verdict is a possible result of the predicate on its item.
pub proof fn lemma_filter_keeps_accepted<S: CompletionStream, F: Fn(&S::Item) -> bool>(
    fl: Filter<S, F>,
)
    requires
        fl.wf(),
    ensures
        fl.yielded() == kept(fl.pulled(), fl.marks@),
        fl.marks@.len() == fl.pulled().len(),
        forall|i: int|
            0 <= i < fl.marks@.len() ==> call_ensures(
                fl.f,
                (&fl.pulled()[i],),
                #[trigger] fl.marks@[i],
            ),
{
}

/// A helper shared by the concrete-source laws below: a reduction taken
/// over a fresh vector-backed source pulls a consecutive prefix of the
/// elements; when the deciding poll found the source ended, it pulled
/// them all.
proof fn lemma_pulled_from_source<T>(
    base: Seq<T>,
    pre: MustComplete<Iter<T>>,
    post: MustComplete<Iter<T>>,
)
    requires
        base == pre.yielded(),
        reaches(pre, post),
    ensures
        pre.yielded().is_prefix_of(post.yielded()),
        since(post.yielded(), base) == pre.stream.items@.take(
            post.yielded().len() - pre.yielded().len(),
        ),
        0 <= post.yielded().len() - pre.yielded().len() <= pre.stream.items@.len(),
        post.stream.items@ == pre.stream.items@.skip(
            post.yielded().len() - pre.yielded().len(),
        ),
{
    lemma_source_run(pre, post);
    assert_seqs_equal!(since(post.yielded(), base) == pre.stream.items@.take(
        post.yielded().len() - pre.yielded().len()));
}

/// Counting a fresh vector-backed source gives exactly the number of its
/// elements: one per `Item` poll, decided only once the source reported
/// its end.
pub proof fn lemma_count_on_source<T>(
    pre: Count<MustComplete<Iter<T>>>,
    post: Count<MustComplete<Iter<T>>>,
    c: usize,
)
    requires
        pre.wf(),
        !pre.done(),
        pre.pulled().len() == 0,
        pre.step(post, Poll::Finished(c)),
    ensures
        c == counted_value(pre.stream.stream.items@.len()),
{
    assert_seqs_equal!(pre.base@ == pre.stream.yielded());
    lemma_pulled_from_source(pre.base@, pre.stream, post.stream);
    lemma_source_ended(post.stream);
    let d = post.stream.yielded().len() - pre.stream.yielded().len();
    assert(post.pulled() == since(post.stream.yielded(), pre.base@));
    assert(post.stream.stream.items@ == pre.stream.stream.items@.skip(d as int));
    assert(pre.stream.stream.items@.skip(d as int).len() == pre.stream.stream.items@.len() - d);
    assert(d == pre.stream.stream.items@.len());
    assert(post.pulled().len() == d);
}

/// Gathering a fresh vector-backed source gives back exactly its
/// elements, in order, and only once the source reported its end.
pub proof fn lemma_collect_on_source<T>(
    pre: Collect<MustComplete<Iter<T>>>,
    post: Collect<MustComplete<Iter<T>>>,
    out: Vec<T>,
)
    requires
        pre.wf(),
        !pre.done(),
        pre.pulled().len() == 0,
        pre.step(post, Poll::Finished(out)),
    ensures
        out@ == pre.stream.stream.items@,
{
    assert_seqs_equal!(pre.base@ == pre.stream.yielded());
    lemma_pulled_from_source(pre.base@, pre.stream, post.stream);
    lemma_source_ended(post.stream);
    let d = post.stream.yielded().len() - pre.stream.yielded().len();
    assert(post.pulled() == since(post.stream.yielded(), pre.base@));
    assert(post.stream.stream.items@ == pre.stream.stream.items@.skip(d as int));
    assert(pre.stream.stream.items@.skip(d as int).len() == pre.stream.stream.items@.len() - d);
    assert(d == pre.stream.stream.items@.len());
    assert_seqs_equal!(pre.stream.stream.items@.take(d as int) == pre.stream.stream.items@);
}

/// The item at a position of a fresh vector-backed source is the element
/// at that position, when there is one; past the end the answer is
/// nothing, and only after the source reported its end.
pub proof fn lemma_nth_on_source<T>(
    pre: Nth<MustComplete<Iter<T>>>,
    post: Nth<MustComplete<Iter<T>>>,
    out: Option<T>,
)
    requires
        pre.wf(),
        !pre.done(),
        pre.pulled().len() == 0,
        pre.step(post, Poll::Finished(out)),
    ensures
        match out {
            Some(v) => pre.stream.stream.items@.len() > pre.quota@ && v
                == pre.stream.stream.items@[pre.quota@],
            None => pre.stream.stream.items@.len() <= pre.quota@,
        },
{
    assert_seqs_equal!(pre.base@ == pre.stream.yielded());
    lemma_pulled_from_source(pre.base@, pre.stream, post.stream);
    let d = post.stream.yielded().len() - pre.stream.yielded().len();
    assert(post.pulled() == since(post.stream.yielded(), pre.base@));
    assert(post.pulled() == pre.stream.stream.items@.take(d as int));
    match out {
        Some(v) => {
            assert(post.pulled().len() == pre.quota@ + 1);
            assert(d == pre.quota@ + 1);
            assert(d <= pre.stream.stream.items@.len());
            assert(post.pulled().last() == v);
            assert(pre.stream.stream.items@.take(d as int).len() == d);
            assert(post.pulled()[d - 1] == pre.stream.stream.items@.take(d as int)[d - 1]);
            assert(pre.stream.stream.items@.take(d as int) == pre.stream.stream.items@.subrange(
                0,
                d,
            ));
            assert(pre.stream.stream.items@.subrange(0, d)[d - 1] == pre.stream.stream.items@[d
                - 1]);
        },
        None => {
            lemma_source_ended(post.stream);
            assert(post.stream.stream.items@ == pre.stream.stream.items@.skip(d as int));
            assert(pre.stream.stream.items@.skip(d as int).len() == pre.stream.stream.items@.len()
                - d);
            assert(d == pre.stream.stream.items@.len());
        },
    }
}

/// Counting law: when a count finishes, its value is exactly the number
/// of items the sequence produced — one per `Item` poll result — before
/// it reported its end (pegged at the largest machine word, which only
/// matters past that many items).
pub proof fn lemma_count_is_item_count<S: CompletionStream>(pre: Count<S>, post: Count<S>, c: usize)
    requires
        pre.step(post, Poll::Finished(c)),
    ensures
        c == counted_value(post.pulled().len()),
{
}

/// Fusing law: once a fused sequence has reported its end, every further
/// poll reports `Ended`, leaves the state untouched, and does not reach
/// the inner sequence — whatever the inner sequence would have done.
pub proof fn lemma_fuse_end_is_permanent<S: CompletionStream>(
    pre: Fuse<S>,
    post: Fuse<S>,
    r: PollNext<S::Item>,
)
    requires
        pre.done,
        pre.step(post, r),
    ensures
        r is Ended,
        post == pre,
{
}

/// Fusing law, first half: the poll on which the inner sequence ends
/// records the exhaustion, so the previous law applies to every poll
/// after it.
pub proof fn lemma_fuse_records_end<S: CompletionStream>(
    pre: Fuse<S>,
    post: Fuse<S>,
)
    requires
        pre.step(post, PollNext::Ended),
    ensures
        post.done,
{
}

/// Striding law: a stride of `k` yields exactly the items at positions
/// `0, k, 2k, ...` of what the inner sequence produced, in their
/// original order.  (A stride of zero is excluded at construction.)
pub proof fn lemma_step_by_positions<S: CompletionStream>(s: StepBy<S>, j: int)
    requires
        s.wf(),
        0 <= j < s.yielded().len(),
    ensures
        s.yielded()[j] == s.pulled()[j * s.stride],
{
}

/// Concatenation law: a chain's output is exactly what its first
/// sequence produced followed by what its second produced, with no
/// interleaving — the second contributes nothing until the first has
/// ended.
pub proof fn lemma_chain_order<A: CompletionStream, B: CompletionStream<Item = A::Item>>(
    c: Chain<A, B>,
)
    requires
        c.wf(),
    ensures
        c.yielded() == c.from_first() + c.from_second(),
        !c.first_done ==> c.yielded() == c.from_first(),
{
    if !c.first_done {
        assert(c.yielded() =~= c.from_first());
    }
}

/// Prefix law: a bounded prefix yields every item it pulls, and never
/// more than its budget: its item count is the smaller of the budget and
/// the number of items the inner sequence produced.
pub proof fn lemma_take_count<S: CompletionStream>(t: Take<S>)
    requires
        t.wf(),
    ensures
        t.yielded() == t.pulled(),
        t.yielded().len() == if t.pulled().len() <= t.quota@ {
            t.pulled().len() as int
        } else {
            t.quota@
        },
{
}

/// Suffix law: a bounded suffix discards exactly its budget and yields
/// the rest: its item count is the number of items the inner sequence
/// produced, less the smaller of that number and the budget.
pub proof fn lemma_skip_count<S: CompletionStream>(s: Skip<S>)
    requires
        s.wf(),
    ensures
        s.yielded().len() == if s.pulled().len() <= s.quota@ {
            0
        } else {
            s.pulled().len() - s.quota@
        },
{
}

/// Short-circuit law for the existential reduction: under a predicate
/// that never rejects, the reduction finishes `true` after pulling
/// exactly one item, however many more the sequence could produce.
pub proof fn lemma_any_short_circuits<S: CompletionStream, F: Fn(S::Item) -> bool>(
    pre: Any<S, F>,
    post: Any<S, F>,
)
    requires
        pre.wf(),
        !pre.done(),
        pre.pulled().len() == 0,
        pre.step(post, Poll::Finished(true)),
        forall|x: S::Item, b: bool| #[trigger] call_ensures(pre.f, (x,), b) ==> b,
    ensures
        post.pulled().len() == 1,
{
    if post.pulled().len() > 1 {
        assert(call_ensures(pre.f, (post.pulled()[0],), false));
    }
}

/// Short-circuit law for the universal reduction: under a predicate that
/// never accepts, the reduction finishes `false` after pulling exactly
/// one item.
pub proof fn lemma_all_short_circuits<S: CompletionStream, F: Fn(S::Item) -> bool>(
    pre: All<S, F>,
    post: All<S, F>,
)
    requires
        pre.wf(),
        !pre.done(),
        pre.pulled().len() == 0,
        pre.step(post, Poll::Finished(false)),
        forall|x: S::Item, b: bool| #[trigger] call_ensures(pre.f, (x,), b) ==> !b,
    ensures
        post.pulled().len() == 1,
{
    if post.pulled().len() > 1 {
        assert(call_ensures(pre.f, (post.pulled()[0],), true));
    }
}

/// Gathering law: a finished gather holds exactly the items the sequence
/// produced, in order — sending a sequence's items through a gather is
/// the identity on the items.
pub proof fn lemma_collect_round_trip<S: CompletionStream>(
    pre: Collect<S>,
    post: Collect<S>,
    out: Vec<S::Item>,
)
    requires
        pre.step(post, Poll::Finished(out)),
    ensures
        out@ == post.pulled(),
{
}

/// Short-circuiting gather law: a negative outcome means an absent value
/// was pulled, nothing was pulled past it, and every earlier item held a
/// value.
pub proof fn lemma_collect_option_short_circuits<
    S: CompletionStream<Item = Option<T>>,
    T,
>(pre: CollectOption<S, T>, post: CollectOption<S, T>)
    requires
        pre.step(post, Poll::Finished(None)),
    ensures
        post.pulled().len() > 0,
        post.pulled().last() == None::<T>,
        forall|i: int| 0 <= i < post.pulled().len() - 1 ==> (#[trigger] post.pulled()[i]) is Some,
{
}

/// Folding law: a finished fold is a run of the combining function over
/// exactly the items the sequence produced, in arrival order, from the
/// given start.
pub proof fn lemma_fold_in_order<S: CompletionStream, T, F: Fn(T, S::Item) -> T>(
    pre: Fold<S, T, F>,
    post: Fold<S, T, F>,
    out: T,
)
    requires
        pre.step(post, Poll::Finished(out)),
    ensures
        folds_to(pre.f, pre.init@, post.pulled(), out),
{
}

} // verus!
