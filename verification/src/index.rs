//! The shared beadset index and the grouping it drives.
//!
//! The index is built exactly once per run, from the manifest's probe
//! addresses and their beadset ids together with the probe-id layout of the
//! first decoded individual; every individual shares that layout, so one
//! build serves them all. Once built it is read-only: grouping an
//! individual, normalizing each group and reconstructing the probe-ordered
//! result only ever read it.

use vstd::prelude::*;
use vstd::relations::sorted_by;
use crate::pipeline::strictly_ascending;
use crate::sort::{id_order, sort_by_probe_id};

verus! {

/// The views of a sequence of vectors.
pub open spec fn seq_views<T>(v: Seq<Vec<T>>) -> Seq<Seq<T>> {
    v.map_values(|x: Vec<T>| x@)
}

/// The probe-id/point pairs of one individual's groups, group after group:
/// each group's probe ids zipped with its points.
pub open spec fn paired<T>(gids: Seq<Seq<u32>>, groups: Seq<Seq<T>>) -> Seq<(u32, T)>
    decreases gids.len(),
{
    if gids.len() == 0 {
        Seq::empty()
    } else {
        paired(gids.drop_last(), groups.drop_last()) + gids.last().zip_with(groups.last())
    }
}

/// No probe id occurs twice among the pairs.
pub open spec fn unique_ids<T>(pairs: Seq<(u32, T)>) -> bool {
    forall|i: int, j: int|
        0 <= i < j < pairs.len() ==> (#[trigger] pairs[i]).0 != (#[trigger] pairs[j]).0
}

/// The groups' lists, group after group, as one list.
pub open spec fn concat_seqs<A>(ss: Seq<Seq<A>>) -> Seq<A>
    decreases ss.len(),
{
    if ss.len() == 0 {
        Seq::empty()
    } else {
        concat_seqs(ss.drop_last()) + ss.last()
    }
}

/// A value stands in the concatenation exactly when some group holds it.
proof fn lemma_concat_contains<A>(ss: Seq<Seq<A>>, x: A)
    ensures
        concat_seqs(ss).contains(x) <==> exists|g: int|
            0 <= g < ss.len() && (#[trigger] ss[g]).contains(x),
    decreases ss.len(),
{
    if ss.len() > 0 {
        lemma_concat_contains(ss.drop_last(), x);
        let prefix = concat_seqs(ss.drop_last());
        if concat_seqs(ss).contains(x) {
            let i = choose|i: int|
                0 <= i < concat_seqs(ss).len() && concat_seqs(ss)[i] == x;
            if i < prefix.len() {
                assert(prefix[i] == x);
                assert(prefix.contains(x));
                let g = choose|g: int|
                    0 <= g < ss.drop_last().len() && (#[trigger] ss.drop_last()[g]).contains(x);
                assert(ss[g].contains(x));
            } else {
                assert(ss.last()[i - prefix.len()] == x);
                assert(ss[ss.len() - 1].contains(x));
            }
        }
        if exists|g: int| 0 <= g < ss.len() && (#[trigger] ss[g]).contains(x) {
            let g = choose|g: int| 0 <= g < ss.len() && (#[trigger] ss[g]).contains(x);
            if g == ss.len() - 1 {
                let k = choose|k: int| 0 <= k < ss[g].len() && ss[g][k] == x;
                assert(concat_seqs(ss)[prefix.len() + k] == x);
                assert(concat_seqs(ss).contains(x));
            } else {
                assert(ss.drop_last()[g].contains(x));
                assert(prefix.contains(x));
                let i = choose|i: int| 0 <= i < prefix.len() && prefix[i] == x;
                assert(concat_seqs(ss)[i] == x);
                assert(concat_seqs(ss).contains(x));
            }
        }
    }
}

/// Pairwise-disjoint groups without inner repeats concatenate without
/// repeats.
proof fn lemma_concat_no_duplicates<A>(ss: Seq<Seq<A>>)
    requires
        forall|g: int| 0 <= g < ss.len() ==> (#[trigger] ss[g]).no_duplicates(),
        forall|g1: int, g2: int|
            0 <= g1 < g2 < ss.len() ==> (#[trigger] ss[g1]).disjoint(#[trigger] ss[g2]),
    ensures
        concat_seqs(ss).no_duplicates(),
    decreases ss.len(),
{
    if ss.len() > 0 {
        let sd = ss.drop_last();
        assert forall|g1: int, g2: int|
            0 <= g1 < g2 < sd.len() implies (#[trigger] sd[g1]).disjoint(#[trigger] sd[g2]) by {
            assert(ss[g1].disjoint(ss[g2]));
        }
        lemma_concat_no_duplicates(sd);
        let prefix = concat_seqs(sd);
        let last = ss.last();
        assert forall|i: int, j: int|
            0 <= i < prefix.len() && 0 <= j < last.len() implies prefix[i] != last[j] by {
            assert(prefix.contains(prefix[i]));
            lemma_concat_contains(sd, prefix[i]);
            let g = choose|g: int| 0 <= g < sd.len() && (#[trigger] sd[g]).contains(prefix[i]);
            assert(ss[g].disjoint(ss[ss.len() - 1]));
            let k = choose|k: int| 0 <= k < ss[g].len() && ss[g][k] == prefix[i];
            assert(ss[g][k] != last[j]);
        }
        vstd::seq_lib::lemma_no_dup_in_concat(prefix, last);
    }
}

/// Group after group, the paired probe ids and points are the pairs read
/// off the original layout at the groups' positions.
proof fn lemma_paired_as_picks<T>(
    gids: Seq<Seq<u32>>,
    positions: Seq<Seq<usize>>,
    groups: Seq<Seq<T>>,
    probe_ids: Seq<u32>,
    data: Seq<T>,
)
    requires
        gids.len() == positions.len(),
        groups.len() == positions.len(),
        data.len() == probe_ids.len(),
        forall|g: int, k: int|
            0 <= g < positions.len() && 0 <= k < positions[g].len() ==> (
            #[trigger] positions[g][k]) < probe_ids.len(),
        forall|g: int|
            0 <= g < positions.len() ==> (#[trigger] gids[g]) == positions[g].map_values(
                |p: usize| probe_ids[p as int],
            ),
        forall|g: int|
            0 <= g < positions.len() ==> (#[trigger] groups[g]) == positions[g].map_values(
                |p: usize| data[p as int],
            ),
    ensures
        paired(gids, groups) == concat_seqs(positions).map_values(
            |p: usize| (probe_ids[p as int], data[p as int]),
        ),
    decreases positions.len(),
{
    let pick = |p: usize| (probe_ids[p as int], data[p as int]);
    if positions.len() == 0 {
        assert(paired(gids, groups) =~= concat_seqs(positions).map_values(pick));
    } else {
        lemma_paired_as_picks(
            gids.drop_last(),
            positions.drop_last(),
            groups.drop_last(),
            probe_ids,
            data,
        );
        assert(gids.last().zip_with(groups.last()) =~= positions.last().map_values(pick));
        assert((concat_seqs(positions.drop_last()) + positions.last()).map_values(pick)
            =~= concat_seqs(positions.drop_last()).map_values(pick) + positions.last().map_values(
            pick,
        ));
        assert(paired(gids, groups) =~= concat_seqs(positions).map_values(pick));
    }
}

/// A list of positions that covers each index of a layout exactly once
/// picks up exactly the layout's elements, whatever the order.
pub(crate) proof fn lemma_picks_cover_multiset<T>(pp: Seq<usize>, t: Seq<T>)
    requires
        t.len() <= usize::MAX,
        forall|k: int| 0 <= k < pp.len() ==> (#[trigger] pp[k]) < t.len(),
        pp.no_duplicates(),
        forall|v: usize| v < t.len() ==> pp.contains(v),
    ensures
        pp.map_values(|p: usize| t[p as int]).to_multiset() == t.to_multiset(),
    decreases t.len(),
{
    broadcast use vstd::multiset::group_multiset_axioms;

    let m = pp.map_values(|p: usize| t[p as int]);
    if t.len() == 0 {
        assert(pp.len() == 0) by {
            if pp.len() > 0 {
                assert(pp[0] < t.len());
            }
        }
        m.to_multiset_ensures();
        t.to_multiset_ensures();
        vstd::multiset::lemma_multiset_empty_len(m.to_multiset());
        vstd::multiset::lemma_multiset_empty_len(t.to_multiset());
        assert(m.to_multiset() =~= t.to_multiset());
    } else {
        let n = t.len();
        assert(pp.contains((n - 1) as usize));
        let j = choose|j: int| 0 <= j < pp.len() && pp[j] == (n - 1) as usize;
        let pp2 = pp.remove(j);
        let t2 = t.drop_last();
        pp.remove_ensures(j);
        assert forall|k: int| 0 <= k < pp2.len() implies (#[trigger] pp2[k]) < t2.len() by {
            if k < j {
                assert(pp2[k] == pp[k]);
                assert(pp[k] != pp[j]);
            } else {
                assert(pp2[k] == pp[k + 1]);
                assert(pp[k + 1] != pp[j]);
            }
        }
        assert forall|k1: int, k2: int|
            0 <= k1 < pp2.len() && 0 <= k2 < pp2.len() && k1 != k2 implies pp2[k1] != pp2[k2] by {
            let o1: int = if k1 < j {
                k1
            } else {
                k1 + 1
            };
            let o2: int = if k2 < j {
                k2
            } else {
                k2 + 1
            };
            assert(pp2[k1] == pp[o1]);
            assert(pp2[k2] == pp[o2]);
        }
        assert forall|v: usize| v < t2.len() implies pp2.contains(v) by {
            assert(pp.contains(v));
            let k = choose|k: int| 0 <= k < pp.len() && pp[k] == v;
            assert(pp[k] != pp[j]);
            if k < j {
                assert(pp2[k] == pp[k]);
            } else {
                assert(pp2[k - 1] == pp[k]);
            }
        }
        lemma_picks_cover_multiset(pp2, t2);
        let m2 = pp2.map_values(|p: usize| t2[p as int]);
        assert(m.remove(j) =~= m2);
        m.to_multiset_ensures();
        m2.to_multiset_ensures();
        t.to_multiset_ensures();
        t2.to_multiset_ensures();
        assert(m[j] == t[n - 1]);
        assert(m.remove(j).to_multiset() =~= m.to_multiset().remove(t[n - 1]));
        assert(m.contains(m[j]));
        assert(m.to_multiset().count(t[n - 1]) > 0);
        assert(t =~= t2.push(t.last()));
        assert(t.to_multiset() =~= t2.to_multiset().insert(t.last()));
        assert(m.to_multiset() =~= t.to_multiset());
    }
}

/// Two lists of pairs sorted by probe id, with one multiset of pairs and no
/// repeated id, are one list.
proof fn lemma_sorted_unique_ids<T>(x: Seq<(u32, T)>, y: Seq<(u32, T)>)
    requires
        sorted_by(x, id_order::<T>()),
        sorted_by(y, id_order::<T>()),
        x.to_multiset() == y.to_multiset(),
        unique_ids(x),
    ensures
        x == y,
    decreases x.len(),
{
    broadcast use vstd::multiset::group_multiset_axioms;

    x.to_multiset_ensures();
    y.to_multiset_ensures();
    assert(x.len() == y.len());
    if x.len() == 0 {
        assert(x =~= y);
    } else {
        assert(y.contains(y[0]));
        assert(x.to_multiset().count(y[0]) > 0);
        assert(x.contains(y[0]));
        let i = choose|i: int| 0 <= i < x.len() && x[i] == y[0];
        assert(x.contains(x[0]));
        assert(y.to_multiset().count(x[0]) > 0);
        assert(y.contains(x[0]));
        let j = choose|j: int| 0 <= j < y.len() && y[j] == x[0];
        assert(x[0].0 <= x[i].0) by {
            if 0 < i {
                assert(id_order::<T>()(x[0], x[i]));
            }
        }
        assert(y[0].0 <= y[j].0) by {
            if 0 < j {
                assert(id_order::<T>()(y[0], y[j]));
            }
        }
        assert(x[0].0 == y[0].0);
        assert(i == 0) by {
            if 0 < i {
                assert(x[0].0 != x[i].0);
            }
        }
        assert(x[0] == y[0]);
        let xd = x.drop_first();
        let yd = y.drop_first();
        assert(x.remove(0) =~= xd);
        assert(y.remove(0) =~= yd);
        assert(xd.to_multiset() =~= x.to_multiset().remove(x[0]));
        assert(yd.to_multiset() =~= y.to_multiset().remove(y[0]));
        assert forall|k1: int, k2: int|
            0 <= k1 < k2 < xd.len() implies (#[trigger] xd[k1]).0 != (#[trigger] xd[k2]).0 by {
            assert(xd[k1] == x[k1 + 1]);
            assert(xd[k2] == x[k2 + 1]);
        }
        assert forall|k1: int, k2: int|
            0 <= k1 < k2 < xd.len() implies id_order::<T>()(xd[k1], xd[k2]) by {
            assert(id_order::<T>()(x[k1 + 1], x[k2 + 1]));
        }
        assert forall|k1: int, k2: int|
            0 <= k1 < k2 < yd.len() implies id_order::<T>()(yd[k1], yd[k2]) by {
            assert(id_order::<T>()(y[k1 + 1], y[k2 + 1]));
        }
        lemma_sorted_unique_ids(xd, yd);
        assert forall|k: int| 0 <= k < x.len() implies x[k] == y[k] by {
            if k > 0 {
                assert(x[k] == xd[k - 1]);
                assert(y[k] == yd[k - 1]);
            }
        }
        assert(x =~= y);
    }
}

/// Round trip of the grouping: slicing an individual's points into beadset
/// groups through an index that covers every probe, and reconstructing in
/// ascending probe-id order, gives back exactly the original sequence of
/// points — the layout's probe ids are ascending, so probe-id order is
/// original order.
pub proof fn lemma_grouping_round_trip<T>(
    index: BeadsetIndex,
    probe_ids: Seq<u32>,
    addresses: Seq<u32>,
    beadsets: Seq<i32>,
    data: Seq<T>,
    groups: Seq<Seq<T>>,
    pairs: Seq<(u32, T)>,
    out: Seq<T>,
)
    requires
        index.describes(probe_ids, addresses, beadsets),
        index.names@.no_duplicates(),
        strictly_increasing(probe_ids),
        data.len() == probe_ids.len(),
        probe_ids.len() <= usize::MAX,
        forall|i: int|
            0 <= i < probe_ids.len() ==> exists|g: int|
                0 <= g < index.names@.len() && probe_beadset(
                    addresses,
                    beadsets,
                    #[trigger] probe_ids[i],
                ) == Some(index.names@[g]),
        groups.len() == index.positions@.len(),
        forall|g: int|
            0 <= g < groups.len() ==> (#[trigger] groups[g]) == index.positions@[
                g
            ]@.map_values(|p: usize| data[p as int]),
        sorted_by(pairs, id_order::<T>()),
        pairs.to_multiset() == paired(seq_views(index.ids@), groups).to_multiset(),
        out == pairs.map_values(|e: (u32, T)| e.1),
    ensures
        out == data,
{
    let n = probe_ids.len() as int;
    let t = Seq::new(n as nat, |i: int| (probe_ids[i], data[i]));
    let positions = seq_views(index.positions@);
    let gids = seq_views(index.ids@);
    let pick = |p: usize| (probe_ids[p as int], data[p as int]);
    assert(gids.len() == index.names@.len());
    assert(positions.len() == index.names@.len());
    assert forall|g: int| 0 <= g < positions.len() implies (#[trigger] gids[g]) == positions[
        g
    ].map_values(|p: usize| probe_ids[p as int]) by {
        assert(gids[g] == index.ids@[g]@);
        assert(positions[g] == index.positions@[g]@);
    }
    assert forall|g: int| 0 <= g < positions.len() implies (#[trigger] groups[g]) == positions[
        g
    ].map_values(|p: usize| data[p as int]) by {
        assert(positions[g] == index.positions@[g]@);
    }
    assert forall|g: int, k: int|
        0 <= g < positions.len() && 0 <= k < positions[g].len() implies (
    #[trigger] positions[g][k]) < probe_ids.len() by {
        assert(index.positions@[g]@[k] < probe_ids.len());
    }
    lemma_paired_as_picks(gids, positions, groups, probe_ids, data);
    let pp = concat_seqs(positions);
    assert forall|g: int| 0 <= g < positions.len() implies (
    #[trigger] positions[g]).no_duplicates() by {
        assert(strictly_ascending(index.positions@[g]@));
        assert forall|k1: int, k2: int|
            0 <= k1 < positions[g].len() && 0 <= k2 < positions[g].len() && k1 != k2 implies
            positions[g][k1] != positions[g][k2] by {
            if k1 < k2 {
                assert(index.positions@[g]@[k1] < index.positions@[g]@[k2]);
            } else {
                assert(index.positions@[g]@[k2] < index.positions@[g]@[k1]);
            }
        }
    }
    assert forall|g1: int, g2: int|
        0 <= g1 < g2 < positions.len() implies (#[trigger] positions[g1]).disjoint(
        #[trigger] positions[g2],
    ) by {
        assert forall|k1: int, k2: int|
            0 <= k1 < positions[g1].len() && 0 <= k2 < positions[g2].len() implies positions[
            g1
        ][k1] != positions[g2][k2] by {
            if positions[g1][k1] == positions[g2][k2] {
                let p = index.positions@[g1]@[k1];
                assert(probe_beadset(addresses, beadsets, probe_ids[p as int]) == Some(
                    index.names@[g1],
                ));
                assert(probe_beadset(addresses, beadsets, probe_ids[p as int]) == Some(
                    index.names@[g2],
                ));
                assert(index.names@[g1] == index.names@[g2]);
            }
        }
    }
    lemma_concat_no_duplicates(positions);
    assert forall|k: int| 0 <= k < pp.len() implies (#[trigger] pp[k]) < t.len() by {
        assert(pp.contains(pp[k]));
        lemma_concat_contains(positions, pp[k]);
        let g = choose|g: int| 0 <= g < positions.len() && (#[trigger] positions[g]).contains(
            pp[k],
        );
        let k0 = choose|k0: int| 0 <= k0 < positions[g].len() && positions[g][k0] == pp[k];
        assert(positions[g][k0] < probe_ids.len());
    }
    assert forall|v: usize| v < t.len() implies pp.contains(v) by {
        let g = choose|g: int|
            0 <= g < index.names@.len() && probe_beadset(addresses, beadsets, probe_ids[v as int])
                == Some(index.names@[g]);
        assert(index.positions@[g]@.contains(v));
        assert(positions[g].contains(v));
        lemma_concat_contains(positions, v);
    }
    lemma_picks_cover_multiset(pp, t);
    assert(pp.map_values(|p: usize| t[p as int]) =~= pp.map_values(pick));
    assert(paired(gids, groups).to_multiset() == t.to_multiset());
    assert forall|k1: int, k2: int|
        0 <= k1 < k2 < t.len() implies (#[trigger] t[k1]).0 != (#[trigger] t[k2]).0 by {
        assert(probe_ids[k1] < probe_ids[k2]);
    }
    assert forall|k1: int, k2: int|
        0 <= k1 < k2 < t.len() implies id_order::<T>()(t[k1], t[k2]) by {
        assert(probe_ids[k1] < probe_ids[k2]);
    }
    lemma_sorted_unique_ids(t, pairs);
    assert(out =~= data);
}

/// Probe ids strictly increase along an intensity file.
pub open spec fn strictly_increasing(ids: Seq<u32>) -> bool {
    forall|i: int, j: int| 0 <= i < j < ids.len() ==> ids[i] < ids[j]
}

/// The manifest's addresses come sorted, possibly with repeats.
pub open spec fn non_decreasing(addresses: Seq<u32>) -> bool {
    forall|i: int, j: int| 0 <= i < j < addresses.len() ==> addresses[i] <= addresses[j]
}

/// The beadset a probe address belongs to: the beadset of the first
/// manifest entry carrying that address, if there is one.
pub open spec fn probe_beadset(addresses: Seq<u32>, beadsets: Seq<i32>, probe: u32) -> Option<
    i32,
> {
    match addresses.index_of_first(probe) {
        Some(j) => Some(beadsets[j]),
        None => None,
    }
}

/// The beadset-to-positions index of one intensity layout.
///
/// `names` lists the beadset ids; for the beadset `names[g]`,
/// `positions[g]` holds the positions, within one individual's intensity
/// array, of the probes of that beadset, in ascending order, and `ids[g]`
/// holds the probe ids found at those positions.
pub struct BeadsetIndex {
    pub names: Vec<i32>,
    pub positions: Vec<Vec<usize>>,
    pub ids: Vec<Vec<u32>>,
}

impl BeadsetIndex {
    /// The index describes the intensity layout `probe_ids` grouped through
    /// the manifest pairing `(addresses, beadsets)`: each group lists, in
    /// ascending order, exactly the positions whose probe belongs to its
    /// beadset, together with those probes' ids.
    pub open spec fn describes(
        self,
        probe_ids: Seq<u32>,
        addresses: Seq<u32>,
        beadsets: Seq<i32>,
    ) -> bool {
        &&& self.positions@.len() == self.names@.len()
        &&& self.ids@.len() == self.names@.len()
        &&& forall|g: int|
            0 <= g < self.names@.len() ==> strictly_ascending(#[trigger] self.positions@[g]@)
        &&& forall|g: int, k: int|
            0 <= g < self.names@.len() && 0 <= k < self.positions@[g]@.len() ==> (
            #[trigger] self.positions@[g]@[k]) < probe_ids.len()
        &&& forall|g: int|
            0 <= g < self.names@.len() ==> (#[trigger] self.ids@[g]@) == self.positions@[
                g
            ]@.map_values(|p: usize| probe_ids[p as int])
        &&& forall|g: int, k: int|
            0 <= g < self.names@.len() && 0 <= k < self.positions@[g]@.len() ==> probe_beadset(
                addresses,
                beadsets,
                probe_ids[(#[trigger] self.positions@[g]@[k]) as int],
            ) == Some(self.names@[g])
        &&& forall|g: int, i: int|
            #![trigger self.positions@[g]@, probe_ids[i]]
            0 <= g < self.names@.len() && 0 <= i < probe_ids.len() && probe_beadset(
                addresses,
                beadsets,
                probe_ids[i],
            ) == Some(self.names@[g]) ==> self.positions@[g]@.contains(i as usize)
    }

    /// Build the index: for each beadset name, in order, the positions and
    /// probe ids of the probes whose address the manifest pairs with that
    /// beadset. A probe whose address the manifest does not carry belongs
    /// to no group.
    pub fn process_vectors(
        probe_ids: &Vec<u32>,
        addresses: &Vec<u32>,
        bead_set_id: &Vec<i32>,
        vector_names: &Vec<i32>,
    ) -> (index: BeadsetIndex)
        requires
            strictly_increasing(probe_ids@),
            non_decreasing(addresses@),
            addresses@.len() == bead_set_id@.len(),
        ensures
            index.names@ == vector_names@,
            index.describes(probe_ids@, addresses@, bead_set_id@),
    {
        let n = probe_ids.len();
        let alen = addresses.len();
        let mut names: Vec<i32> = Vec::new();
        let mut positions: Vec<Vec<usize>> = Vec::new();
        let mut gids: Vec<Vec<u32>> = Vec::new();
        let mut g: usize = 0;
        while g < vector_names.len()
            invariant
                g <= vector_names@.len(),
                n == probe_ids@.len(),
                alen == addresses@.len(),
                strictly_increasing(probe_ids@),
                non_decreasing(addresses@),
                addresses@.len() == bead_set_id@.len(),
                names@ == vector_names@.take(g as int),
                positions@.len() == g,
                gids@.len() == g,
                forall|g0: int|
                    0 <= g0 < g ==> strictly_ascending(#[trigger] positions@[g0]@),
                forall|g0: int, k: int|
                    0 <= g0 < g && 0 <= k < positions@[g0]@.len() ==> (
                    #[trigger] positions@[g0]@[k]) < probe_ids@.len(),
                forall|g0: int|
                    0 <= g0 < g ==> (#[trigger] gids@[g0]@) == positions@[g0]@.map_values(
                        |p: usize| probe_ids@[p as int],
                    ),
                forall|g0: int, k: int|
                    0 <= g0 < g && 0 <= k < positions@[g0]@.len() ==> probe_beadset(
                        addresses@,
                        bead_set_id@,
                        probe_ids@[(#[trigger] positions@[g0]@[k]) as int],
                    ) == Some(vector_names@[g0]),
                forall|g0: int, i: int|
                    #![trigger positions@[g0]@, probe_ids@[i]]
                    0 <= g0 < g && 0 <= i < probe_ids@.len() && probe_beadset(
                        addresses@,
                        bead_set_id@,
                        probe_ids@[i],
                    ) == Some(vector_names@[g0]) ==> positions@[g0]@.contains(i as usize),
            decreases vector_names@.len() - g,
        {
            let target = vector_names[g];
            let mut pos_g: Vec<usize> = Vec::new();
            let mut id_g: Vec<u32> = Vec::new();
            let mut found: usize = 0;
            let mut i: usize = 0;
            while i < n
                invariant
                    i <= n,
                    found <= alen,
                    n == probe_ids@.len(),
                    alen == addresses@.len(),
                    strictly_increasing(probe_ids@),
                    non_decreasing(addresses@),
                    addresses@.len() == bead_set_id@.len(),
                    i < n ==> forall|k: int|
                        0 <= k < found ==> addresses@[k] < probe_ids@[i as int],
                    id_g@ == pos_g@.map_values(|p: usize| probe_ids@[p as int]),
                    strictly_ascending(pos_g@),
                    forall|k: int| 0 <= k < pos_g@.len() ==> (#[trigger] pos_g@[k]) < i,
                    forall|k: int|
                        0 <= k < pos_g@.len() ==> probe_beadset(
                            addresses@,
                            bead_set_id@,
                            probe_ids@[(#[trigger] pos_g@[k]) as int],
                        ) == Some(target),
                    forall|i0: int|
                        0 <= i0 < i && probe_beadset(addresses@, bead_set_id@, probe_ids@[i0])
                            == Some(target) ==> pos_g@.contains(i0 as usize),
                decreases n - i,
            {
                let id = probe_ids[i];
                while found < alen && addresses[found] < id
                    invariant
                        found <= alen,
                        alen == addresses@.len(),
                        id == probe_ids@[i as int],
                        i < n,
                        n == probe_ids@.len(),
                        forall|k: int| 0 <= k < found ==> addresses@[k] < id,
                    decreases alen - found,
                {
                    found += 1;
                }
                proof {
                    addresses@.index_of_first_ensures(id);
                    if found < alen && addresses@[found as int] == id {
                        assert(addresses@.contains(id));
                        let fst = addresses@.index_of_first(id).unwrap();
                        assert(fst == found) by {
                            if fst < found {
                                assert(addresses@[fst] < id);
                            }
                            if found < fst {
                                assert(addresses@[found as int] != id);
                            }
                        }
                        assert(probe_beadset(addresses@, bead_set_id@, id) == Some(
                            bead_set_id@[found as int],
                        ));
                    } else {
                        assert(probe_beadset(addresses@, bead_set_id@, id) is None) by {
                            if addresses@.contains(id) {
                                let j = choose|j: int|
                                    0 <= j < addresses@.len() && addresses@[j] == id;
                                assert(j >= found);
                                assert(addresses@[found as int] <= addresses@[j]);
                            }
                        }
                    }
                }
                let ghost prev_pos = pos_g@;
                if found < alen && addresses[found] == id {
                    if bead_set_id[found] == target {
                        pos_g.push(i);
                        id_g.push(id);
                        proof {
                            assert(id_g@ =~= pos_g@.map_values(|p: usize| probe_ids@[p as int]));
                        }
                    }
                }
                proof {
                    assert forall|i0: int|
                        0 <= i0 < i + 1 && probe_beadset(
                            addresses@,
                            bead_set_id@,
                            probe_ids@[i0],
                        ) == Some(target) implies pos_g@.contains(i0 as usize) by {
                        if i0 == i {
                            assert(pos_g@[pos_g@.len() - 1] == i0 as usize);
                        } else {
                            let k = choose|k: int|
                                0 <= k < prev_pos.len() && (#[trigger] prev_pos[k]) == i0 as usize;
                            assert(pos_g@[k] == i0 as usize);
                        }
                    }
                    if i + 1 < n {
                        assert forall|k: int| 0 <= k < found implies addresses@[k] < probe_ids@[i
                            + 1] by {
                            assert(addresses@[k] < probe_ids@[i as int]);
                        }
                    }
                }
                i += 1;
            }
            names.push(target);
            positions.push(pos_g);
            gids.push(id_g);
            proof {
                assert(names@ =~= vector_names@.take(g + 1 as int));
            }
            g += 1;
        }
        proof {
            assert(vector_names@.take(g as int) =~= vector_names@);
        }
        BeadsetIndex { names, positions, ids: gids }
    }

    /// Slice one individual's intensity array into its beadset groups: for
    /// each beadset, in index order, the points at that beadset's
    /// positions, in position order.
    pub fn populate_vectors<T: Copy>(&self, idat_data: &Vec<T>) -> (groups: Vec<Vec<T>>)
        requires
            forall|g: int, k: int|
                0 <= g < self.positions@.len() && 0 <= k < self.positions@[g]@.len() ==> (
                #[trigger] self.positions@[g]@[k]) < idat_data@.len(),
        ensures
            groups@.len() == self.positions@.len(),
            forall|g: int|
                0 <= g < groups@.len() ==> (#[trigger] groups@[g]@) == self.positions@[
                    g
                ]@.map_values(|p: usize| idat_data@[p as int]),
    {
        let mut groups: Vec<Vec<T>> = Vec::new();
        let mut g: usize = 0;
        while g < self.positions.len()
            invariant
                g <= self.positions@.len(),
                groups@.len() == g,
                forall|g0: int, k: int|
                    0 <= g0 < self.positions@.len() && 0 <= k < self.positions@[g0]@.len() ==> (
                    #[trigger] self.positions@[g0]@[k]) < idat_data@.len(),
                forall|g0: int|
                    0 <= g0 < g ==> (#[trigger] groups@[g0]@) == self.positions@[g0]@.map_values(
                        |p: usize| idat_data@[p as int],
                    ),
            decreases self.positions@.len() - g,
        {
            let pos_g = &self.positions[g];
            let mut grp: Vec<T> = Vec::new();
            let mut k: usize = 0;
            while k < pos_g.len()
                invariant
                    k <= pos_g@.len(),
                    pos_g@ == self.positions@[g as int]@,
                    g < self.positions@.len(),
                    forall|k0: int|
                        0 <= k0 < pos_g@.len() ==> (#[trigger] pos_g@[k0]) < idat_data@.len(),
                    grp@ == pos_g@.take(k as int).map_values(|p: usize| idat_data@[p as int]),
                decreases pos_g@.len() - k,
            {
                let p = pos_g[k];
                grp.push(idat_data[p]);
                proof {
                    assert(pos_g@.take(k + 1 as int).map_values(|p: usize| idat_data@[p as int])
                        =~= pos_g@.take(k as int).map_values(|p: usize| idat_data@[p as int]).push(
                        idat_data@[p as int],
                    ));
                }
                k += 1;
            }
            proof {
                assert(pos_g@.take(pos_g@.len() as int) =~= pos_g@);
            }
            groups.push(grp);
            g += 1;
        }
        groups
    }

    /// Put one individual back together from its corrected groups: pair
    /// each group's points with their probe ids, merge the groups, and
    /// return the points alone, in ascending probe-id order. The probe ids
    /// of a layout are unique, so that order is complete.
    pub fn recontruct_individual_vector<T: Copy>(&self, groups: &Vec<Vec<T>>) -> (out: Vec<T>)
        requires
            groups@.len() == self.ids@.len(),
            forall|g: int|
                0 <= g < groups@.len() ==> (#[trigger] groups@[g]@).len() == self.ids@[
                    g
                ]@.len(),
            unique_ids(paired(seq_views(self.ids@), seq_views(groups@))),
        ensures
            exists|pairs: Seq<(u32, T)>|
                {
                    &&& sorted_by(pairs, id_order::<T>())
                    &&& pairs.to_multiset() == paired(
                        seq_views(self.ids@),
                        seq_views(groups@),
                    ).to_multiset()
                    &&& out@ == pairs.map_values(|e: (u32, T)| e.1)
                },
    {
        let ghost gv = seq_views(self.ids@);
        let ghost dv = seq_views(groups@);
        let mut combined: Vec<(u32, T)> = Vec::new();
        let mut g: usize = 0;
        while g < groups.len()
            invariant
                g <= groups@.len(),
                groups@.len() == self.ids@.len(),
                gv == seq_views(self.ids@),
                dv == seq_views(groups@),
                forall|g0: int|
                    0 <= g0 < groups@.len() ==> (#[trigger] groups@[g0]@).len() == self.ids@[
                        g0
                    ]@.len(),
                combined@ == paired(gv.take(g as int), dv.take(g as int)),
            decreases groups@.len() - g,
        {
            let ids_g = &self.ids[g];
            let grp = &groups[g];
            let mut k: usize = 0;
            while k < ids_g.len()
                invariant
                    k <= ids_g@.len(),
                    ids_g@ == self.ids@[g as int]@,
                    grp@ == groups@[g as int]@,
                    g < groups@.len(),
                    groups@.len() == self.ids@.len(),
                    grp@.len() == ids_g@.len(),
                    gv == seq_views(self.ids@),
                    dv == seq_views(groups@),
                    combined@ == paired(gv.take(g as int), dv.take(g as int)) + ids_g@.take(
                        k as int,
                    ).zip_with(grp@.take(k as int)),
                decreases ids_g@.len() - k,
            {
                combined.push((ids_g[k], grp[k]));
                proof {
                    assert(ids_g@.take(k + 1 as int).zip_with(grp@.take(k + 1 as int))
                        =~= ids_g@.take(k as int).zip_with(grp@.take(k as int)).push(
                        (ids_g@[k as int], grp@[k as int]),
                    ));
                }
                k += 1;
            }
            proof {
                assert(ids_g@.take(ids_g@.len() as int) =~= ids_g@);
                assert(grp@.take(grp@.len() as int) =~= grp@);
                assert(gv.take(g + 1 as int).drop_last() =~= gv.take(g as int));
                assert(dv.take(g + 1 as int).drop_last() =~= dv.take(g as int));
                assert(gv.take(g + 1 as int).last() == ids_g@);
                assert(dv.take(g + 1 as int).last() == grp@);
                assert(paired(gv.take(g + 1 as int), dv.take(g + 1 as int)) == paired(
                    gv.take(g as int),
                    dv.take(g as int),
                ) + ids_g@.zip_with(grp@));
            }
            g += 1;
        }
        proof {
            assert(gv.take(g as int) =~= gv);
            assert(dv.take(g as int) =~= dv);
        }
        sort_by_probe_id(&mut combined);
        let ghost pairs_witness = combined@;
        let mut out: Vec<T> = Vec::new();
        let mut j: usize = 0;
        while j < combined.len()
            invariant
                j <= combined@.len(),
                combined@ == pairs_witness,
                out@ == combined@.take(j as int).map_values(|e: (u32, T)| e.1),
            decreases combined@.len() - j,
        {
            out.push(combined[j].1);
            proof {
                assert(combined@.take(j + 1 as int).map_values(|e: (u32, T)| e.1) =~= combined@.take(
                    j as int,
                ).map_values(|e: (u32, T)| e.1).push(combined@[j as int].1));
            }
            j += 1;
        }
        proof {
            assert(combined@.take(combined@.len() as int) =~= combined@);
        }
        out
    }
}

} // verus!
