//! Percentile outlier rejection: the first, reversible stage of the pipeline.
//!
//! For each point three series are considered: the x keys, the y keys and the
//! ratio keys. Each series is sorted on its own, a lower and an upper
//! threshold are taken from fixed ranks, and a point is rejected as soon as
//! one of its three values lies at or beyond a threshold of its series.

use vstd::prelude::*;
use vstd::relations::{sorted_by, total_ordering};
use vstd::seq_lib::lemma_sorted_unique;
use rayon::slice::ParallelSliceMut;
use crate::points::IntensityPoint;
use crate::seqs::lemma_filter_push;
use crate::NormalisationError;

verus! {

/// The order the key series are ranked by.
pub open spec fn key_order() -> spec_fn(u64, u64) -> bool {
    |a: u64, b: u64| a <= b
}

/// A series sorted into non-descending order.
pub open spec fn sorted_of(s: Seq<u64>) -> Seq<u64> {
    s.sort_by(key_order())
}

/// The x keys of a group, in group order.
pub open spec fn xs_of(data: Seq<IntensityPoint>) -> Seq<u64> {
    data.map_values(|p: IntensityPoint| p.x)
}

/// The y keys of a group, in group order.
pub open spec fn ys_of(data: Seq<IntensityPoint>) -> Seq<u64> {
    data.map_values(|p: IntensityPoint| p.y)
}

/// The ratio keys of a group, in group order.
pub open spec fn ratios_of(data: Seq<IntensityPoint>) -> Seq<u64> {
    data.map_values(|p: IntensityPoint| p.ratio)
}

/// Lower threshold of one series: the smaller of the fifth-smallest value
/// and the value at the first-percentile rank, both ranks taken over the
/// length before any removal.
pub open spec fn lower_threshold(s: Seq<u64>) -> u64
    recommends
        s.len() >= 5,
{
    let t = sorted_of(s);
    let fifth_smallest = t[4];
    let first_percentile = t[s.len() as int / 100];
    if fifth_smallest <= first_percentile {
        fifth_smallest
    } else {
        first_percentile
    }
}

/// Upper threshold of one series: the larger of the fifth-largest value and
/// the value at the ninety-ninth-percentile rank.
pub open spec fn upper_threshold(s: Seq<u64>) -> u64
    recommends
        s.len() >= 5,
{
    let t = sorted_of(s);
    let fifth_largest = t[s.len() - 5];
    let ninety_ninth = t[99 * s.len() as int / 100];
    if fifth_largest >= ninety_ninth {
        fifth_largest
    } else {
        ninety_ninth
    }
}

/// One value lies at or beyond a threshold of its series.
pub open spec fn outside_thresholds(v: u64, s: Seq<u64>) -> bool {
    v <= lower_threshold(s) || v >= upper_threshold(s)
}

/// A point of the group is an outlier as soon as any one of its three
/// values is outside the thresholds of its series; the thresholds are those
/// of the whole group, before any removal.
pub open spec fn point_is_outlier(data: Seq<IntensityPoint>, p: IntensityPoint) -> bool {
    ||| outside_thresholds(p.x, xs_of(data))
    ||| outside_thresholds(p.y, ys_of(data))
    ||| outside_thresholds(p.ratio, ratios_of(data))
}

/// The surviving points of a group, in group order.
pub open spec fn survivors_of(data: Seq<IntensityPoint>) -> Seq<IntensityPoint> {
    data.filter(|p: IntensityPoint| !point_is_outlier(data, p))
}

/// The outlier-bounds law: every point the filter keeps lies strictly
/// between the lower and the upper threshold of each of the three series,
/// and every point inside all three threshold pairs is kept. (That a
/// removed point lies at or beyond a threshold of at least one series is
/// the definition of [`point_is_outlier`], which the filter's own contract
/// asserts of each removed point.)
pub proof fn lemma_outlier_bounds(data: Seq<IntensityPoint>)
    ensures
        forall|k: int|
            0 <= k < survivors_of(data).len() ==> {
                let p = #[trigger] survivors_of(data)[k];
                &&& lower_threshold(xs_of(data)) < p.x < upper_threshold(xs_of(data))
                &&& lower_threshold(ys_of(data)) < p.y < upper_threshold(ys_of(data))
                &&& lower_threshold(ratios_of(data)) < p.ratio < upper_threshold(ratios_of(data))
            },
        forall|i: int|
            0 <= i < data.len() && !point_is_outlier(data, #[trigger] data[i])
                ==> survivors_of(data).contains(data[i]),
{
    let pred = |p: IntensityPoint| !point_is_outlier(data, p);
    assert forall|k: int| 0 <= k < survivors_of(data).len() implies {
        let p = #[trigger] survivors_of(data)[k];
        &&& lower_threshold(xs_of(data)) < p.x < upper_threshold(xs_of(data))
        &&& lower_threshold(ys_of(data)) < p.y < upper_threshold(ys_of(data))
        &&& lower_threshold(ratios_of(data)) < p.ratio < upper_threshold(ratios_of(data))
    } by {
        data.lemma_filter_pred(pred, k);
    }
    assert forall|i: int|
        0 <= i < data.len() && !point_is_outlier(data, #[trigger] data[i]) implies survivors_of(
        data,
    ).contains(data[i]) by {
        data.lemma_filter_contains(pred, i);
    }
}

/// Relies on rayon's `ParallelSliceMut::par_sort`: a stable parallel merge
/// sort, which leaves the slice in non-descending order with its multiset
/// of values unchanged.
#[verifier::external_body]
fn sort_keys(v: &mut Vec<u64>)
    ensures
        final(v)@.len() == old(v)@.len(),
        sorted_by(final(v)@, key_order()),
        final(v)@.to_multiset() == old(v)@.to_multiset(),
{
    v.par_sort();
}

/// The order the series are ranked by is total.
proof fn lemma_key_order_total()
    ensures
        total_ordering(key_order()),
{
}

/// Sort a series and read both thresholds off the fixed ranks.
fn one_series_thresholds(vals: Vec<u64>) -> (t: (u64, u64))
    requires
        vals@.len() >= 5,
    ensures
        t.0 == lower_threshold(vals@),
        t.1 == upper_threshold(vals@),
{
    let ghost orig = vals@;
    let n = vals.len();
    let mut sorted_vals = vals;
    sort_keys(&mut sorted_vals);
    proof {
        orig.lemma_sort_by_ensures(key_order());
        lemma_key_order_total();
        lemma_sorted_unique(sorted_vals@, sorted_of(orig), key_order());
    }
    let low_rank = n / 100;
    let high_rank = {
        let q = n / 100;
        let r = n % 100;
        assert(99 * q + 99 * r / 100 == 99 * n as int / 100) by (nonlinear_arith)
            requires
                q == n as int / 100,
                r == n as int % 100,
        ;
        assert(99 * q + 99 * r / 100 < n as int) by (nonlinear_arith)
            requires
                q == n as int / 100,
                r == n as int % 100,
                n >= 5,
        ;
        99 * q + 99 * r / 100
    };
    let fifth_smallest = sorted_vals[4];
    let first_percentile = sorted_vals[low_rank];
    let fifth_largest = sorted_vals[n - 5];
    let ninety_ninth = sorted_vals[high_rank];
    let lo = if fifth_smallest <= first_percentile {
        fifth_smallest
    } else {
        first_percentile
    };
    let hi = if fifth_largest >= ninety_ninth {
        fifth_largest
    } else {
        ninety_ninth
    };
    (lo, hi)
}

/// Copy the three series of a group out into vectors of their own, in group
/// order; the group itself is not reordered.
fn extract_series(data: &Vec<IntensityPoint>) -> (r: (Vec<u64>, Vec<u64>, Vec<u64>))
    ensures
        r.0@ == xs_of(data@),
        r.1@ == ys_of(data@),
        r.2@ == ratios_of(data@),
{
    let mut xs: Vec<u64> = Vec::new();
    let mut ys: Vec<u64> = Vec::new();
    let mut rs: Vec<u64> = Vec::new();
    let n = data.len();
    let mut i: usize = 0;
    while i < n
        invariant
            i <= n,
            n == data@.len(),
            xs@ == xs_of(data@.take(i as int)),
            ys@ == ys_of(data@.take(i as int)),
            rs@ == ratios_of(data@.take(i as int)),
        decreases n - i,
    {
        let p = data[i];
        xs.push(p.x);
        ys.push(p.y);
        rs.push(p.ratio);
        proof {
            assert(xs_of(data@.take(i + 1 as int)) =~= xs_of(data@.take(i as int)).push(p.x));
            assert(ys_of(data@.take(i + 1 as int)) =~= ys_of(data@.take(i as int)).push(p.y));
            assert(ratios_of(data@.take(i + 1 as int)) =~= ratios_of(
                data@.take(i as int),
            ).push(p.ratio));
        }
        i += 1;
    }
    proof {
        assert(data@.take(n as int) =~= data@);
    }
    (xs, ys, rs)
}

/// Thresholds of the three series of a group, each pair `(lower, upper)`.
fn group_thresholds(data: &Vec<IntensityPoint>) -> (t: ((u64, u64), (u64, u64), (u64, u64)))
    requires
        data@.len() >= 5,
    ensures
        t.0.0 == lower_threshold(xs_of(data@)),
        t.0.1 == upper_threshold(xs_of(data@)),
        t.1.0 == lower_threshold(ys_of(data@)),
        t.1.1 == upper_threshold(ys_of(data@)),
        t.2.0 == lower_threshold(ratios_of(data@)),
        t.2.1 == upper_threshold(ratios_of(data@)),
{
    let (xs, ys, rs) = extract_series(data);
    let tx = one_series_thresholds(xs);
    let ty = one_series_thresholds(ys);
    let tr = one_series_thresholds(rs);
    (tx, ty, tr)
}

/// The filter stage.
pub struct Outliers;

impl Outliers {
    /// Reject the outliers of one group. On success the group holds the
    /// survivors, in their original order, and the removed points come back
    /// paired with their original indices, in increasing index order, so a
    /// caller can reinsert them later. If every point would be rejected the
    /// group is left untouched and the empty-group error is returned, so the
    /// caller can skip the rest of the pipeline for this group.
    pub fn remove_outliers_parallelised(data: &mut Vec<IntensityPoint>) -> (r: Result<
        Vec<(usize, IntensityPoint)>,
        NormalisationError,
    >)
        requires
            old(data)@.len() >= 5,
        ensures
            ({
                let orig = old(data)@;
                match r {
                    Result::Ok(removed) => {
                        &&& final(data)@ == survivors_of(orig)
                        &&& final(data)@.len() > 0
                        &&& removed@.len() + final(data)@.len() == orig.len()
                        &&& forall|k: int|
                            0 <= k < removed@.len() ==> (#[trigger] removed@[k]).0 < orig.len()
                                && orig[removed@[k].0 as int] == removed@[k].1 && point_is_outlier(
                                orig,
                                removed@[k].1,
                            )
                        &&& forall|k1: int, k2: int|
                            0 <= k1 < k2 < removed@.len() ==> (#[trigger] removed@[k1]).0 < (
                            #[trigger] removed@[k2]).0
                        &&& forall|i: int|
                            0 <= i < orig.len() && point_is_outlier(orig, #[trigger] orig[i])
                                ==> exists|k: int|
                                0 <= k < removed@.len() && (#[trigger] removed@[k]).0 == i
                    },
                    Result::Err(e) => {
                        &&& e == NormalisationError::EmptyGroup
                        &&& final(data)@ == orig
                        &&& forall|i: int|
                            0 <= i < orig.len() ==> point_is_outlier(orig, #[trigger] orig[i])
                    },
                }
            }),
    {
        let ghost orig = data@;
        let ghost pred = |p: IntensityPoint| !point_is_outlier(orig, p);
        let ((x_lo, x_hi), (y_lo, y_hi), (r_lo, r_hi)) = group_thresholds(data);
        let n = data.len();
        let mut kept: Vec<IntensityPoint> = Vec::new();
        let mut removed: Vec<(usize, IntensityPoint)> = Vec::new();
        let mut i: usize = 0;
        while i < n
            invariant
                i <= n,
                n == orig.len(),
                data@ == orig,
                x_lo == lower_threshold(xs_of(orig)),
                x_hi == upper_threshold(xs_of(orig)),
                y_lo == lower_threshold(ys_of(orig)),
                y_hi == upper_threshold(ys_of(orig)),
                r_lo == lower_threshold(ratios_of(orig)),
                r_hi == upper_threshold(ratios_of(orig)),
                pred == (|p: IntensityPoint| !point_is_outlier(orig, p)),
                kept@ == orig.take(i as int).filter(pred),
                kept@.len() + removed@.len() == i,
                forall|k: int|
                    0 <= k < removed@.len() ==> (#[trigger] removed@[k]).0 < i
                        && orig[removed@[k].0 as int] == removed@[k].1 && point_is_outlier(
                        orig,
                        removed@[k].1,
                    ),
                forall|k1: int, k2: int|
                    0 <= k1 < k2 < removed@.len() ==> (#[trigger] removed@[k1]).0 < (
                    #[trigger] removed@[k2]).0,
                forall|i0: int|
                    0 <= i0 < i && point_is_outlier(orig, #[trigger] orig[i0]) ==> exists|k: int|
                        0 <= k < removed@.len() && (#[trigger] removed@[k]).0 == i0,
            decreases n - i,
        {
            let p = data[i];
            let is_out = p.x <= x_lo || p.x >= x_hi || p.y <= y_lo || p.y >= y_hi || p.ratio
                <= r_lo || p.ratio >= r_hi;
            proof {
                assert(is_out == point_is_outlier(orig, p));
                lemma_filter_push(orig.take(i as int), p, pred);
                assert(orig.take(i + 1 as int) =~= orig.take(i as int).push(p));
            }
            let ghost prev = removed@;
            if is_out {
                removed.push((i, p));
            } else {
                kept.push(p);
            }
            proof {
                assert forall|i0: int|
                    0 <= i0 < i + 1 && point_is_outlier(orig, #[trigger] orig[i0]) implies exists|
                    k: int,
                |
                    0 <= k < removed@.len() && (#[trigger] removed@[k]).0 == i0 by {
                    if i0 == i {
                        assert((#[trigger] removed@[removed@.len() - 1]).0 == i0);
                    } else {
                        let k = choose|k: int| 0 <= k < prev.len() && (#[trigger] prev[k]).0 == i0;
                        assert((#[trigger] removed@[k]).0 == i0);
                    }
                }
            }
            i += 1;
        }
        proof {
            assert(orig.take(n as int) =~= orig);
        }
        if kept.len() == 0 {
            proof {
                assert forall|i0: int| 0 <= i0 < orig.len() implies point_is_outlier(
                    orig,
                    #[trigger] orig[i0],
                ) by {
                    if !point_is_outlier(orig, orig[i0]) {
                        orig.lemma_filter_contains(pred, i0);
                    }
                }
            }
            Err(NormalisationError::EmptyGroup)
        } else {
            *data = kept;
            Ok(removed)
        }
    }

    /// Reject the outliers of one group unconditionally, keeping only the
    /// survivors in their original order; nothing is remembered and the
    /// group may come out empty.
    pub fn remove_outliers(data: &mut Vec<IntensityPoint>)
        requires
            old(data)@.len() >= 5,
        ensures
            final(data)@ == survivors_of(old(data)@),
    {
        let ghost orig = data@;
        let ghost pred = |p: IntensityPoint| !point_is_outlier(orig, p);
        let ((x_lo, x_hi), (y_lo, y_hi), (r_lo, r_hi)) = group_thresholds(data);
        let n = data.len();
        let mut kept: Vec<IntensityPoint> = Vec::new();
        let mut i: usize = 0;
        while i < n
            invariant
                i <= n,
                n == orig.len(),
                data@ == orig,
                x_lo == lower_threshold(xs_of(orig)),
                x_hi == upper_threshold(xs_of(orig)),
                y_lo == lower_threshold(ys_of(orig)),
                y_hi == upper_threshold(ys_of(orig)),
                r_lo == lower_threshold(ratios_of(orig)),
                r_hi == upper_threshold(ratios_of(orig)),
                pred == (|p: IntensityPoint| !point_is_outlier(orig, p)),
                kept@ == orig.take(i as int).filter(pred),
            decreases n - i,
        {
            let p = data[i];
            let is_out = p.x <= x_lo || p.x >= x_hi || p.y <= y_lo || p.y >= y_hi || p.ratio
                <= r_lo || p.ratio >= r_hi;
            proof {
                assert(is_out == point_is_outlier(orig, p));
                lemma_filter_push(orig.take(i as int), p, pred);
                assert(orig.take(i + 1 as int) =~= orig.take(i as int).push(p));
            }
            if !is_out {
                kept.push(p);
            }
            i += 1;
        }
        proof {
            assert(orig.take(n as int) =~= orig);
        }
        *data = kept;
    }
}

} // verus!
