//! Selections from a sequence: subsequences, and what a filter leaves.

use vstd::prelude::*;

verus! {

/// `at` gives, for each element of `part`, a position in `whole` that holds
/// it, and the positions rise.
pub open spec fn selects<A>(at: Seq<int>, part: Seq<A>, whole: Seq<A>) -> bool {
    &&& at.len() == part.len()
    &&& forall|i: int| 0 <= i < at.len() ==> 0 <= #[trigger] at[i] < whole.len()
    &&& forall|i: int| 0 <= i < at.len() ==> whole[#[trigger] at[i]] == part[i]
    &&& forall|i: int, j: int| 0 <= i < j < at.len() ==> #[trigger] at[i] < #[trigger] at[j]
}

/// `part` is `whole` with some of its elements left out: what stays keeps its
/// order, and an element that stands twice in `whole` may stay twice.
pub open spec fn is_subsequence<A>(part: Seq<A>, whole: Seq<A>) -> bool {
    exists|at: Seq<int>| selects(at, part, whole)
}

/// Filtering leaves a subsequence.
pub proof fn lemma_filter_is_subsequence<A>(whole: Seq<A>, pred: spec_fn(A) -> bool)
    ensures
        is_subsequence(whole.filter(pred), whole),
    decreases whole.len(),
{
    reveal(Seq::filter);
    if whole.len() == 0 {
        assert(selects(Seq::<int>::empty(), whole.filter(pred), whole));
    } else {
        let shorter = whole.drop_last();
        lemma_filter_is_subsequence(shorter, pred);
        let at = choose|at: Seq<int>| selects(at, shorter.filter(pred), shorter);
        if pred(whole.last()) {
            let longer = at.push(whole.len() - 1);
            assert(selects(longer, whole.filter(pred), whole));
        } else {
            assert(selects(at, whole.filter(pred), whole));
        }
    }
}

/// Every element that a filter lets through passes its test.
pub proof fn lemma_filter_passes<A>(whole: Seq<A>, pred: spec_fn(A) -> bool)
    ensures
        forall|i: int| 0 <= i < whole.filter(pred).len() ==> pred(#[trigger] whole.filter(pred)[i]),
{
    assert forall|i: int| 0 <= i < whole.filter(pred).len() implies pred(
        #[trigger] whole.filter(pred)[i],
    ) by {
        whole.lemma_filter_pred(pred, i);
    }
}

/// A filter whose test every element passes leaves the sequence as it is.
pub proof fn lemma_filter_keeps_all<A>(whole: Seq<A>, pred: spec_fn(A) -> bool)
    requires
        forall|i: int| 0 <= i < whole.len() ==> pred(#[trigger] whole[i]),
    ensures
        whole.filter(pred) == whole,
    decreases whole.len(),
{
    reveal(Seq::filter);
    if whole.len() > 0 {
        let shorter = whole.drop_last();
        assert forall|i: int| 0 <= i < shorter.len() implies pred(#[trigger] shorter[i]) by {
            assert(shorter[i] == whole[i]);
        }
        lemma_filter_keeps_all(shorter, pred);
        assert(shorter.push(whole.last()) =~= whole);
    }
}

/// Filtering by a test, and then by a second test that only elements passing
/// the first one pass, is filtering by the second test alone.
pub proof fn lemma_filter_twice<A>(whole: Seq<A>, wide: spec_fn(A) -> bool, narrow: spec_fn(A) -> bool)
    requires
        forall|i: int| 0 <= i < whole.len() && narrow(#[trigger] whole[i]) ==> wide(whole[i]),
    ensures
        whole.filter(wide).filter(narrow) == whole.filter(narrow),
    decreases whole.len(),
{
    reveal(Seq::filter);
    if whole.len() > 0 {
        let shorter = whole.drop_last();
        let last = whole.last();
        assert forall|i: int| 0 <= i < shorter.len() && narrow(#[trigger] shorter[i]) implies wide(
            shorter[i],
        ) by {
            assert(shorter[i] == whole[i]);
        }
        lemma_filter_twice(shorter, wide, narrow);
        assert(narrow(last) ==> wide(last)) by {
            assert(last == whole[whole.len() - 1]);
        }
        if wide(last) {
            let kept = shorter.filter(wide);
            assert(kept.push(last).drop_last() =~= kept);
        }
    }
}

/// A filter whose test no element passes leaves nothing.
pub proof fn lemma_filter_keeps_none<A>(whole: Seq<A>, pred: spec_fn(A) -> bool)
    requires
        forall|i: int| 0 <= i < whole.len() ==> !pred(#[trigger] whole[i]),
    ensures
        whole.filter(pred).len() == 0,
    decreases whole.len(),
{
    reveal(Seq::filter);
    if whole.len() > 0 {
        let shorter = whole.drop_last();
        assert forall|i: int| 0 <= i < shorter.len() implies !pred(#[trigger] shorter[i]) by {
            assert(shorter[i] == whole[i]);
        }
        lemma_filter_keeps_none(shorter, pred);
        assert(!pred(whole[whole.len() - 1]));
    }
}

} // verus!
