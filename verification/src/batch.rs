//! What makes the fan-out over individuals safe.
//!
//! Each individual of a batch is corrected from its own data and the shared
//! read-only index alone: the per-individual result is one function of the
//! individual. The law below draws the consequence: however a scheduler
//! interleaves the workers — that is, in whatever order the per-individual
//! results are taken — the batch yields one and the same collection of
//! results as the sequential run.

use vstd::prelude::*;

verus! {

/// Order independence of a batch: taking each individual exactly once, in
/// any order, and applying the one per-individual result function, gives
/// the same multiset of results as taking the batch in its given order.
pub proof fn lemma_batch_order_independent<A, B>(
    individuals: Seq<A>,
    result_of: spec_fn(A) -> B,
    order: Seq<usize>,
)
    requires
        individuals.len() <= usize::MAX,
        forall|k: int| 0 <= k < order.len() ==> (#[trigger] order[k]) < individuals.len(),
        order.no_duplicates(),
        forall|v: usize| v < individuals.len() ==> order.contains(v),
    ensures
        Seq::new(order.len(), |k: int| result_of(individuals[order[k] as int])).to_multiset()
            == individuals.map_values(result_of).to_multiset(),
{
    let t = individuals.map_values(result_of);
    crate::index::lemma_picks_cover_multiset(order, t);
    assert(order.map_values(|p: usize| t[p as int]) =~= Seq::new(
        order.len(),
        |k: int| result_of(individuals[order[k] as int]),
    ));
}

} // verus!
