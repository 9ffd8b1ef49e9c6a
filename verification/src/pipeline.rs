//! The reversible structure of one pipeline run.
//!
//! The filter takes points out of a group; the correction then reshapes the
//! survivors without changing their number; finally the removed points are
//! reinserted at their original indices, so the group leaves the pipeline
//! with its original length and index alignment. The two halves of that
//! contract live here, generic in the point type: the correction between
//! them is the caller's.

use vstd::prelude::*;
use crate::seqs::lemma_filter_push;

verus! {

/// Each point of a group paired with its position.
pub open spec fn indexed<T>(s: Seq<T>) -> Seq<(usize, T)> {
    Seq::new(s.len(), |i: int| (i as usize, s[i]))
}

/// The points of `s` that do not stand at a listed position, in order.
pub open spec fn without_positions<T>(s: Seq<T>, ps: Seq<usize>) -> Seq<T> {
    indexed(s).filter(|e: (usize, T)| !ps.contains(e.0)).map_values(|e: (usize, T)| e.1)
}

/// Positions listed in strictly increasing order.
pub open spec fn strictly_ascending(ps: Seq<usize>) -> bool {
    forall|k1: int, k2: int| 0 <= k1 < k2 < ps.len() ==> ps[k1] < ps[k2]
}

/// The removal pairs of a group: each listed position with the point that
/// stands there.
pub open spec fn removal_pairs<T>(s: Seq<T>, ps: Seq<usize>) -> Seq<(usize, T)> {
    Seq::new(ps.len(), |k: int| (ps[k], s[ps[k] as int]))
}

/// Appending a point to a group either appends it to, or leaves unchanged,
/// the group with the listed positions taken out, according to whether its
/// own position is listed.
proof fn lemma_without_positions_push<T>(s: Seq<T>, x: T, ps: Seq<usize>)
    requires
        s.len() < usize::MAX,
    ensures
        without_positions(s.push(x), ps) == if ps.contains(s.len() as usize) {
            without_positions(s, ps)
        } else {
            without_positions(s, ps).push(x)
        },
{
    let pred = |e: (usize, T)| !ps.contains(e.0);
    let snd = |e: (usize, T)| e.1;
    assert(indexed(s.push(x)) =~= indexed(s).push((s.len() as usize, x)));
    lemma_filter_push(indexed(s), (s.len() as usize, x), pred);
    if !ps.contains(s.len() as usize) {
        assert(indexed(s).filter(pred).push((s.len() as usize, x)).map_values(snd) =~= indexed(
            s,
        ).filter(pred).map_values(snd).push(x));
    }
}

/// The runner around the filter and the correction.
pub struct Normalise;

impl Normalise {
    /// Take the points at the listed positions out of the group, in place.
    /// The removed points come back paired with their original positions, in
    /// increasing position order, so they can be reinserted later; the group
    /// keeps the remaining points in their original order.
    pub fn remove_at_positions<T: Copy>(data: &mut Vec<T>, positions: &Vec<usize>) -> (removed:
        Vec<(usize, T)>)
        requires
            strictly_ascending(positions@),
            forall|k: int|
                0 <= k < positions@.len() ==> (#[trigger] positions@[k]) < old(data)@.len(),
        ensures
            removed@ == removal_pairs(old(data)@, positions@),
            final(data)@ == without_positions(old(data)@, positions@),
    {
        let ghost orig = data@;
        let ghost ps = positions@;
        let n = data.len();
        let m = positions.len();
        let mut kept: Vec<T> = Vec::new();
        let mut removed: Vec<(usize, T)> = Vec::new();
        let mut i: usize = 0;
        let mut a: usize = 0;
        while i < n
            invariant
                i <= n,
                a <= m,
                n == orig.len(),
                m == ps.len(),
                data@ == orig,
                ps == positions@,
                strictly_ascending(ps),
                forall|k: int| 0 <= k < ps.len() ==> (#[trigger] ps[k]) < orig.len(),
                forall|k: int| 0 <= k < a ==> (#[trigger] ps[k]) < i,
                a == m || ps[a as int] >= i,
                removed@ =~= removal_pairs(orig, ps.take(a as int)),
                kept@ == without_positions(orig.take(i as int), ps),
            decreases n - i,
        {
            let p = data[i];
            proof {
                lemma_without_positions_push(orig.take(i as int), p, ps);
                assert(orig.take(i + 1 as int) =~= orig.take(i as int).push(p));
                if ps.contains(i as usize) {
                    let k = choose|k: int| 0 <= k < ps.len() && ps[k] == i as usize;
                    assert(a < m && ps[a as int] == i as usize) by {
                        if k < a {
                        } else {
                            if a < k {
                                assert(ps[a as int] < ps[k]);
                            }
                        }
                    }
                } else {
                    assert(!(a < m && ps[a as int] == i as usize));
                }
            }
            if a < m && positions[a] == i {
                removed.push((i, p));
                a += 1;
                proof {
                    assert(removal_pairs(orig, ps.take(a as int)) =~= removal_pairs(
                        orig,
                        ps.take(a - 1 as int),
                    ).push((i as usize, p)));
                }
            } else {
                kept.push(p);
            }
            i += 1;
        }
        proof {
            assert(a == m) by {
                if a < m {
                    assert(ps[a as int] < orig.len());
                }
            }
            assert(ps.take(a as int) =~= ps);
            assert(orig.take(n as int) =~= orig);
        }
        *data = kept;
        removed
    }

    /// Reinsert previously removed points, each at its original position,
    /// unchanged. The group grows back by one slot per pair; between the
    /// reinserted points the group's own points keep their order, so that
    /// taking the same positions out again would give the group back.
    pub fn reinsert_outliers<T: Copy>(data: &mut Vec<T>, removed: &Vec<(usize, T)>)
        requires
            old(data)@.len() + removed@.len() <= usize::MAX,
            forall|k1: int, k2: int|
                0 <= k1 < k2 < removed@.len() ==> (#[trigger] removed@[k1]).0 < (
                #[trigger] removed@[k2]).0,
            forall|k: int|
                0 <= k < removed@.len() ==> (#[trigger] removed@[k]).0 <= old(data)@.len() + k,
        ensures
            final(data)@.len() == old(data)@.len() + removed@.len(),
            forall|k: int|
                0 <= k < removed@.len() ==> final(data)@[(#[trigger] removed@[k]).0 as int]
                    == removed@[k].1,
            without_positions(
                final(data)@,
                removed@.map_values(|e: (usize, T)| e.0),
            ) == old(data)@,
    {
        let ghost orig = data@;
        let ghost rem = removed@;
        let ghost ps = rem.map_values(|e: (usize, T)| e.0);
        let n = data.len();
        let m = removed.len();
        let total = n + m;
        let mut out: Vec<T> = Vec::new();
        let mut a: usize = 0;
        let mut b: usize = 0;
        let mut j: usize = 0;
        while j < total
            invariant
                j <= total,
                a <= m,
                b <= n,
                j == a + b,
                total == n + m,
                n == orig.len(),
                m == rem.len(),
                data@ == orig,
                rem == removed@,
                ps == rem.map_values(|e: (usize, T)| e.0),
                forall|k1: int, k2: int|
                    0 <= k1 < k2 < rem.len() ==> (#[trigger] rem[k1]).0 < (#[trigger] rem[k2]).0,
                forall|k: int| 0 <= k < rem.len() ==> (#[trigger] rem[k]).0 <= n + k,
                out@.len() == j,
                forall|k: int| 0 <= k < a ==> (#[trigger] rem[k]).0 < j,
                a == m || rem[a as int].0 >= j,
                forall|k: int|
                    0 <= k < a ==> out@[(#[trigger] rem[k]).0 as int] == rem[k].1,
                without_positions(out@, ps) == orig.take(b as int),
            decreases total - j,
        {
            proof {
                lemma_without_positions_push(out@, if a < m && rem[a as int].0 == j {
                    rem[a as int].1
                } else {
                    orig[b as int]
                }, ps);
                if ps.contains(j as usize) {
                    let k = choose|k: int| 0 <= k < ps.len() && ps[k] == j as usize;
                    assert(rem[k].0 == j as usize);
                    assert(a < m && rem[a as int].0 == j as usize) by {
                        if k < a {
                        } else {
                            if a < k {
                                assert(rem[a as int].0 < rem[k].0);
                            }
                        }
                    }
                } else {
                    if a < m && rem[a as int].0 == j as usize {
                        assert(ps[a as int] == j as usize);
                    }
                }
            }
            if a < m && removed[a].0 == j {
                out.push(removed[a].1);
                a += 1;
            } else {
                proof {
                    assert(b < n) by {
                        if b == n {
                            assert(a < m);
                            assert(rem[a as int].0 <= n + a);
                        }
                    }
                    assert(orig.take(b + 1 as int) =~= orig.take(b as int).push(orig[b as int]));
                }
                let q = data[b];
                out.push(q);
                b += 1;
            }
            j += 1;
        }
        proof {
            assert(a == m) by {
                if a < m {
                    assert(rem[a as int].0 <= n + a);
                }
            }
            assert(b == n);
            assert(orig.take(b as int) =~= orig);
        }
        *data = out;
    }
}

/// Length and index preservation over one whole pipeline run: when the
/// points at the listed positions have been taken out of a group, the
/// survivors corrected in any way that keeps their number, and the removed
/// points reinserted, the group has its original length again, every removed
/// point stands at its original position unchanged, and the corrected
/// survivors fill the other positions in their order.
pub proof fn lemma_pipeline_preserves_layout<T>(
    orig: Seq<T>,
    ps: Seq<usize>,
    corrected: Seq<T>,
    out: Seq<T>,
)
    requires
        orig.len() <= usize::MAX,
        strictly_ascending(ps),
        forall|k: int| 0 <= k < ps.len() ==> (#[trigger] ps[k]) < orig.len(),
        corrected.len() + ps.len() == orig.len(),
        out.len() == corrected.len() + ps.len(),
        forall|k: int|
            0 <= k < ps.len() ==> out[(#[trigger] removal_pairs(orig, ps)[k]).0 as int]
                == removal_pairs(orig, ps)[k].1,
        without_positions(out, removal_pairs(orig, ps).map_values(|e: (usize, T)| e.0))
            == corrected,
    ensures
        out.len() == orig.len(),
        forall|k: int|
            0 <= k < ps.len() ==> out[(#[trigger] ps[k]) as int] == orig[ps[k] as int],
        without_positions(out, ps) == corrected,
{
    assert(removal_pairs(orig, ps).map_values(|e: (usize, T)| e.0) =~= ps);
    assert forall|k: int| 0 <= k < ps.len() implies out[(#[trigger] ps[k]) as int] == orig[ps[k]
        as int] by {
        assert(removal_pairs(orig, ps)[k] == (ps[k], orig[ps[k] as int]));
    }
}

} // verus!
