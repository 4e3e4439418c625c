//! Facts about filtered sequences that the proofs of this library share.

use vstd::prelude::*;

verus! {

/// Filtering a sequence that ends in `last` is filtering what stands before
/// it, then keeping `last` if the predicate holds of it.
pub proof fn lemma_filter_push<A>(s: Seq<A>, last: A, pred: spec_fn(A) -> bool)
    ensures
        s.push(last).filter(pred) == if pred(last) {
            s.filter(pred).push(last)
        } else {
            s.filter(pred)
        },
{
    reveal(Seq::filter);
    assert(s.push(last).drop_last() =~= s);
}

/// Filtering a sequence into which `x` was inserted at `at` is filtering
/// what stands before `at` with `x` behind it, then what stands after.
pub proof fn lemma_filter_insert<A>(s: Seq<A>, at: int, x: A, pred: spec_fn(A) -> bool)
    requires
        0 <= at <= s.len(),
    ensures
        s.insert(at, x).filter(pred) == s.take(at).push(x).filter(pred) + s.skip(at).filter(pred),
        s.filter(pred) == s.take(at).filter(pred) + s.skip(at).filter(pred),
{
    assert(s.insert(at, x) =~= s.take(at).push(x) + s.skip(at));
    assert(s =~= s.take(at) + s.skip(at));
    Seq::filter_distributes_over_add(s.take(at).push(x), s.skip(at), pred);
    Seq::filter_distributes_over_add(s.take(at), s.skip(at), pred);
}

/// A sequence of which the predicate holds nowhere filters to nothing.
pub proof fn lemma_filter_none<A>(s: Seq<A>, pred: spec_fn(A) -> bool)
    requires
        forall|i: int| 0 <= i < s.len() ==> !pred(#[trigger] s[i]),
    ensures
        s.filter(pred) == Seq::<A>::empty(),
{
    assert forall|e: A| s.contains(e) implies !pred(e) by {
        let i = choose|i: int| 0 <= i < s.len() && s[i] == e;
        assert(!pred(s[i]));
    }
    s.lemma_all_neg_filter_empty(pred);
    assert(s.filter(pred) =~= Seq::<A>::empty());
}

/// Filtering by `outer` first loses nothing that `inner` keeps, where
/// `inner` holds only of what `outer` holds of.
pub proof fn lemma_filter_within<A>(s: Seq<A>, outer: spec_fn(A) -> bool, inner: spec_fn(A) -> bool)
    requires
        forall|x: A| #[trigger] inner(x) ==> outer(x),
    ensures
        s.filter(outer).filter(inner) == s.filter(inner),
    decreases s.len(),
{
    if s.len() == 0 {
        reveal(Seq::filter);
    } else {
        let front = s.drop_last();
        assert(s =~= front.push(s.last()));
        lemma_filter_within(front, outer, inner);
        lemma_filter_push(front, s.last(), outer);
        lemma_filter_push(front, s.last(), inner);
        if outer(s.last()) {
            lemma_filter_push(front.filter(outer), s.last(), inner);
        }
    }
}

/// Filtering by `first` and then by `second` keeps nothing, where the two
/// never hold of the same value.
pub proof fn lemma_filter_apart<A>(s: Seq<A>, first: spec_fn(A) -> bool, second: spec_fn(A) -> bool)
    requires
        forall|x: A| #[trigger] first(x) ==> !second(x),
    ensures
        s.filter(first).filter(second) == Seq::<A>::empty(),
{
    let kept = s.filter(first);
    assert forall|i: int| 0 <= i < kept.len() implies !second(#[trigger] kept[i]) by {
        s.lemma_filter_pred(first, i);
    }
    lemma_filter_none(kept, second);
}

/// A value occurs in a filtered sequence as often as in the sequence itself
/// where the predicate holds of it, and not at all where it does not.
pub proof fn lemma_filter_count<A>(s: Seq<A>, pred: spec_fn(A) -> bool, x: A)
    ensures
        s.filter(pred).to_multiset().count(x) == if pred(x) {
            s.to_multiset().count(x)
        } else {
            0
        },
    decreases s.len(),
{
    broadcast use vstd::seq_lib::group_to_multiset_ensures;

    if s.len() == 0 {
        reveal(Seq::filter);
    } else {
        let front = s.drop_last();
        assert(s =~= front.push(s.last()));
        lemma_filter_count(front, pred, x);
        lemma_filter_push(front, s.last(), pred);
    }
}

} // verus!
