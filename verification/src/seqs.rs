//! Small sequence lemmas shared by the pipeline modules.

use vstd::prelude::*;

verus! {

/// Appending a point to a sequence appends it to the filtered sequence
/// exactly when it satisfies the predicate.
pub(crate) proof fn lemma_filter_push<A>(s: Seq<A>, x: A, pred: spec_fn(A) -> bool)
    ensures
        s.push(x).filter(pred) == if pred(x) {
            s.filter(pred).push(x)
        } else {
            s.filter(pred)
        },
{
    reveal(Seq::filter);
    assert(s.push(x).drop_last() == s);
    assert(s.push(x).last() == x);
}

} // verus!
