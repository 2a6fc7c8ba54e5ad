//! Small facts about sequences that the adapter proofs share.

use vstd::assert_seqs_equal;
use vstd::prelude::*;

verus! {

/// The items of `s` that lie past the prefix `base`: what a sequence has
/// yielded since the moment its history was `base`.
pub open spec fn since<T>(s: Seq<T>, base: Seq<T>) -> Seq<T> {
    s.skip(base.len() as int)
}

/// Appending to a sequence appends to its tail past any fixed prefix.
pub proof fn lemma_since_push<T>(s: Seq<T>, base: Seq<T>, v: T)
    requires
        base.len() <= s.len(),
    ensures
        since(s.push(v), base) == since(s, base).push(v),
{
    assert_seqs_equal!(since(s.push(v), base) == since(s, base).push(v));
}

/// A sequence is a prefix of itself, past which nothing has been yielded
/// yet.
pub proof fn lemma_since_self<T>(s: Seq<T>)
    ensures
        s.is_prefix_of(s),
        since(s, s) == Seq::<T>::empty(),
{
    assert_seqs_equal!(s == s.take(s.len() as int));
    assert_seqs_equal!(since(s, s) == Seq::<T>::empty());
}

/// A prefix of a sequence stays a prefix when the sequence is extended.
pub proof fn lemma_prefix_push<T>(p: Seq<T>, s: Seq<T>, v: T)
    requires
        p.is_prefix_of(s),
    ensures
        p.is_prefix_of(s.push(v)),
{
    assert_seqs_equal!(p == s.push(v).take(p.len() as int));
}

/// The elements of `s` marked `true` in `marks`, in order: what a
/// filtering adapter passes through when `marks` records its verdicts.
pub open spec fn kept<T>(s: Seq<T>, marks: Seq<bool>) -> Seq<T>
    decreases s.len(),
{
    if s.len() == 0 || marks.len() == 0 {
        Seq::empty()
    } else {
        let rest = kept(s.drop_last(), marks.drop_last());
        if marks.last() {
            rest.push(s.last())
        } else {
            rest
        }
    }
}

/// A kept element extends the filtered sequence.
pub proof fn lemma_kept_push_true<T>(s: Seq<T>, marks: Seq<bool>, v: T)
    requires
        s.len() == marks.len(),
    ensures
        kept(s.push(v), marks.push(true)) == kept(s, marks).push(v),
{
    assert_seqs_equal!(s.push(v).drop_last() == s);
    assert_seqs_equal!(marks.push(true).drop_last() == marks);
}

/// A rejected element leaves the filtered sequence unchanged.
pub proof fn lemma_kept_push_false<T>(s: Seq<T>, marks: Seq<bool>, v: T)
    requires
        s.len() == marks.len(),
    ensures
        kept(s.push(v), marks.push(false)) == kept(s, marks),
{
    assert_seqs_equal!(s.push(v).drop_last() == s);
    assert_seqs_equal!(marks.push(false).drop_last() == marks);
}

/// The present values among a sequence of optional values, in order: what
/// a filter-mapping adapter passes through when the sequence records the
/// mapping's results.
pub open spec fn present<U>(m: Seq<Option<U>>) -> Seq<U>
    decreases m.len(),
{
    if m.len() == 0 {
        Seq::empty()
    } else {
        let rest = present(m.drop_last());
        match m.last() {
            Some(u) => rest.push(u),
            None => rest,
        }
    }
}

/// A present value extends the projected sequence.
pub proof fn lemma_present_push_some<U>(m: Seq<Option<U>>, u: U)
    ensures
        present(m.push(Some(u))) == present(m).push(u),
{
    assert_seqs_equal!(m.push(Some(u)).drop_last() == m);
}

/// An absent value leaves the projected sequence unchanged.
pub proof fn lemma_present_push_none<U>(m: Seq<Option<U>>)
    ensures
        present(m.push(None)) == present(m),
{
    assert_seqs_equal!(m.push(None::<U>).drop_last() == m);
}

/// Extending a sequence does not change a prefix cut off before the end.
pub proof fn lemma_take_push<T>(s: Seq<T>, v: T, k: int)
    requires
        0 <= k <= s.len(),
    ensures
        s.push(v).take(k) == s.take(k),
{
    assert_seqs_equal!(s.push(v).take(k) == s.take(k));
}

/// Pushing onto the right half of a concatenation pushes onto the whole.
pub proof fn lemma_concat_push<T>(a: Seq<T>, b: Seq<T>, v: T)
    ensures
        a + b.push(v) == (a + b).push(v),
{
    assert_seqs_equal!(a + b.push(v) == (a + b).push(v));
}

} // verus!
