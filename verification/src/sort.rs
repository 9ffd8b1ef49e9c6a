//! A verified sort of probe-id/value pairs, used to put a reconstructed
//! individual back into ascending probe-id order.

use vstd::prelude::*;
use vstd::multiset::Multiset;
use vstd::relations::sorted_by;

verus! {

/// The order of probe-id/value pairs: by probe id alone.
pub open spec fn id_order<T>() -> spec_fn((u32, T), (u32, T)) -> bool {
    |a: (u32, T), b: (u32, T)| a.0 <= b.0
}

/// Sort the pairs into non-descending probe-id order, keeping the multiset
/// of pairs. Pairs with equal ids may come out in any order; the callers
/// never produce two pairs with one id.
pub fn sort_by_probe_id<T: Copy>(v: &mut Vec<(u32, T)>)
    ensures
        final(v)@.len() == old(v)@.len(),
        sorted_by(final(v)@, id_order()),
        final(v)@.to_multiset() == old(v)@.to_multiset(),
{
    let ghost orig = v@;
    let mut rest = Vec::<(u32, T)>::new();
    std::mem::swap(v, &mut rest);
    let mut out: Vec<(u32, T)> = Vec::new();
    proof {
        broadcast use vstd::multiset::group_multiset_axioms;
        broadcast use vstd::multiset::lemma_multiset_empty_len;

        orig.to_multiset_ensures();
        out@.to_multiset_ensures();
        assert(out@.to_multiset().add(rest@.to_multiset()) =~= orig.to_multiset());
    }
    while rest.len() > 0
        invariant
            out@.len() + rest@.len() == orig.len(),
            sorted_by(out@, id_order::<T>()),
            forall|i: int, j: int|
                0 <= i < out@.len() && 0 <= j < rest@.len() ==> (#[trigger] out@[i]).0 <= (
                #[trigger] rest@[j]).0,
            out@.to_multiset().add(rest@.to_multiset()) == orig.to_multiset(),
        decreases rest@.len(),
    {
        let mut min_idx: usize = 0;
        let mut c: usize = 1;
        while c < rest.len()
            invariant
                rest@.len() > 0,
                min_idx < rest@.len(),
                c <= rest@.len(),
                forall|j: int|
                    0 <= j < c ==> (#[trigger] rest@[min_idx as int]).0 <= rest@[j].0,
            decreases rest@.len() - c,
        {
            if rest[c].0 < rest[min_idx].0 {
                min_idx = c;
            }
            c += 1;
        }
        let ghost before = rest@;
        let ghost prev_out = out@;
        let picked = rest.remove(min_idx);
        out.push(picked);
        proof {
            broadcast use vstd::multiset::group_multiset_axioms;

            before.to_multiset_ensures();
            prev_out.to_multiset_ensures();
            assert(out@ == prev_out.push(picked));
            assert(out@.to_multiset() =~= prev_out.to_multiset().insert(picked));
            assert(rest@.to_multiset() =~= before.to_multiset().remove(picked));
            assert(before.contains(picked));
            assert(before.to_multiset().count(picked) > 0);
            assert(out@.to_multiset().add(rest@.to_multiset()) =~= orig.to_multiset());
            assert forall|i: int, j: int|
                0 <= i < out@.len() && 0 <= j < rest@.len() implies (#[trigger] out@[i]).0 <= (
            #[trigger] rest@[j]).0 by {
                if i < out@.len() - 1 {
                    assert(out@[i] == prev_out[i]);
                    if j < min_idx {
                        assert(rest@[j] == before[j]);
                    } else {
                        assert(rest@[j] == before[j + 1]);
                    }
                } else {
                    assert(out@[i] == picked);
                    if j < min_idx {
                        assert(rest@[j] == before[j]);
                        assert(picked.0 <= before[j].0);
                    } else {
                        assert(rest@[j] == before[j + 1]);
                        assert(picked.0 <= before[j + 1].0);
                    }
                }
            }
        }
    }
    proof {
        broadcast use vstd::multiset::group_multiset_axioms;
        broadcast use vstd::multiset::lemma_multiset_empty_len;

        rest@.to_multiset_ensures();
        assert(rest@.to_multiset() =~= Multiset::<(u32, T)>::empty());
        assert(out@.to_multiset() =~= orig.to_multiset());
    }
    std::mem::swap(v, &mut out);
}

} // verus!
