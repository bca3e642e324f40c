//! Exact percentiles: the samples are sorted, and the sample at a rank that
//! depends on the percentile is selected.
//!
//! Percentiles are given in tenths of a percent, so that 99.9 % is 999.

use crate::arith::wide_mul;
use vstd::multiset::Multiset;
use vstd::prelude::*;
use vstd::relations::{sorted_by, total_ordering};
use vstd::seq_lib::{lemma_multiset_commutative, lemma_sorted_unique};

verus! {

/// One hundred percent, in tenths of a percent.
pub const FULL_PERMILLE: u32 = 1000;

/// The order of the samples: smaller first.
pub open spec fn ascending() -> spec_fn(u64, u64) -> bool {
    |a: u64, b: u64| a <= b
}

/// The samples in ascending order.
pub open spec fn sorted_samples(samples: Seq<u64>) -> Seq<u64> {
    samples.sort_by(ascending())
}

/// The rank, in the sorted samples, of the percentile `permille` of `count`
/// samples: `(count * percent - 1) / 100` rounded down, and held within the
/// samples.
pub open spec fn percentile_rank(count: nat, permille: nat) -> nat
    recommends
        count > 0,
{
    let raw = (count * permille - 10) / 1000;
    if raw < 0 {
        0
    } else if raw > count - 1 {
        (count - 1) as nat
    } else {
        raw as nat
    }
}

/// The percentile `permille` of the samples, or 0 where there is no sample.
pub open spec fn percentile(samples: Seq<u64>, permille: nat) -> u64 {
    if samples.len() == 0 {
        0
    } else {
        sorted_samples(samples)[percentile_rank(samples.len(), permille) as int]
    }
}

/// Sorting keeps every sample, as often as it occurs, and puts them in
/// ascending order.
pub proof fn lemma_sorted_samples(samples: Seq<u64>)
    ensures
        sorted_samples(samples).len() == samples.len(),
        sorted_samples(samples).to_multiset() == samples.to_multiset(),
        forall|i: int, j: int|
            0 <= i <= j < samples.len() ==> sorted_samples(samples)[i] <= sorted_samples(
                samples,
            )[j],
{
    broadcast use vstd::seq_lib::group_to_multiset_ensures;

    assert(total_ordering(ascending()));
    samples.lemma_sort_by_ensures(ascending());
    let sorted = sorted_samples(samples);
    assert(sorted.to_multiset().len() == samples.to_multiset().len());
    assert forall|i: int, j: int| 0 <= i <= j < samples.len() implies sorted[i] <= sorted[j] by {
        if i < j {
            assert(ascending()(sorted[i], sorted[j]));
        }
    }
}

/// A sequence in ascending order that holds every sample as often as it
/// occurs is the sorted samples.
pub proof fn lemma_sorted_is_unique(samples: Seq<u64>, sorted: Seq<u64>)
    requires
        sorted_by(sorted, ascending()),
        sorted.to_multiset() == samples.to_multiset(),
    ensures
        sorted == sorted_samples(samples),
{
    assert(total_ordering(ascending()));
    samples.lemma_sort_by_ensures(ascending());
    lemma_sorted_unique(sorted, sorted_samples(samples), ascending());
}

/// Every sample occurs among the sorted samples, and every sorted sample is
/// one of the samples.
pub proof fn lemma_sorted_same_samples(samples: Seq<u64>)
    ensures
        forall|i: int|
            0 <= i < samples.len() ==> sorted_samples(samples).contains(#[trigger] samples[i]),
        forall|i: int|
            0 <= i < samples.len() ==> samples.contains(#[trigger] sorted_samples(samples)[i]),
{
    broadcast use vstd::seq_lib::group_to_multiset_ensures;

    lemma_sorted_samples(samples);
    let sorted = sorted_samples(samples);
    assert forall|i: int| 0 <= i < samples.len() implies sorted.contains(
        #[trigger] samples[i],
    ) by {
        assert(samples.contains(samples[i]));
        assert(samples.to_multiset().count(samples[i]) > 0);
    }
    assert forall|i: int| 0 <= i < samples.len() implies samples.contains(
        #[trigger] sorted[i],
    ) by {
        assert(sorted.contains(sorted[i]));
        assert(sorted.to_multiset().count(sorted[i]) > 0);
    }
}

/// The rank of the hundredth percentile is the last one.
pub proof fn lemma_full_rank_is_last(count: nat)
    requires
        count > 0,
    ensures
        percentile_rank(count, FULL_PERMILLE as nat) == count - 1,
{
    vstd::arithmetic::div_mod::lemma_fundamental_div_mod_converse(
        count * 1000 - 10,
        1000,
        count - 1,
        990,
    );
}

/// The hundredth percentile of a non-empty sample is its largest member.
pub proof fn lemma_full_percentile_is_max(samples: Seq<u64>)
    requires
        samples.len() > 0,
    ensures
        samples.contains(percentile(samples, FULL_PERMILLE as nat)),
        forall|i: int|
            0 <= i < samples.len() ==> #[trigger] samples[i] <= percentile(
                samples,
                FULL_PERMILLE as nat,
            ),
{
    lemma_full_rank_is_last(samples.len());
    lemma_sorted_samples(samples);
    lemma_sorted_same_samples(samples);
    let sorted = sorted_samples(samples);
    let top = sorted[samples.len() - 1];
    assert(samples.contains(top));
    assert forall|i: int| 0 <= i < samples.len() implies #[trigger] samples[i] <= top by {
        assert(sorted.contains(samples[i]));
        let at = choose|at: int| 0 <= at < sorted.len() && sorted[at] == samples[i];
        assert(sorted[at] <= sorted[samples.len() - 1]);
    }
}

/// Every percentile of a non-empty sample is one of the samples.
pub proof fn lemma_percentile_is_a_sample(samples: Seq<u64>, permille: nat)
    requires
        samples.len() > 0,
    ensures
        samples.contains(percentile(samples, permille)),
{
    lemma_sorted_samples(samples);
    lemma_sorted_same_samples(samples);
    let rank = percentile_rank(samples.len(), permille) as int;
    assert(samples.contains(sorted_samples(samples)[rank]));
}

/// A sample appended to a merged run and to one of the two runs it was merged
/// from keeps the merged run the sum of the two.
proof fn lemma_merge_step(left: Seq<u64>, right: Seq<u64>, merged: Seq<u64>, x: u64)
    requires
        merged.to_multiset() == left.to_multiset().add(right.to_multiset()),
    ensures
        merged.push(x).to_multiset() == left.push(x).to_multiset().add(right.to_multiset()),
        merged.push(x).to_multiset() == left.to_multiset().add(right.push(x).to_multiset()),
{
    broadcast use vstd::multiset::group_multiset_axioms;

    vstd::seq_lib::to_multiset_build(merged, x);
    vstd::seq_lib::to_multiset_build(left, x);
    vstd::seq_lib::to_multiset_build(right, x);
    assert(merged.push(x).to_multiset() =~= left.push(x).to_multiset().add(right.to_multiset()));
    assert(merged.push(x).to_multiset() =~= left.to_multiset().add(right.push(x).to_multiset()));
}

/// Nothing merged from nothing.
proof fn lemma_merge_start()
    ensures
        Seq::<u64>::empty().to_multiset() == Seq::<u64>::empty().to_multiset().add(
            Seq::<u64>::empty().to_multiset(),
        ),
{
    broadcast use vstd::multiset::group_multiset_axioms;

    let none = Seq::<u64>::empty().to_multiset();
    vstd::seq_lib::to_multiset_len(Seq::<u64>::empty());
    vstd::multiset::lemma_multiset_empty_len(none);
    assert(none =~= none.add(none));
}

/// Merges two ascending runs into one.
fn merge_runs(left: &Vec<u64>, right: &Vec<u64>) -> (merged: Vec<u64>)
    requires
        sorted_by(left@, ascending()),
        sorted_by(right@, ascending()),
    ensures
        sorted_by(merged@, ascending()),
        merged@.to_multiset() == left@.to_multiset().add(right@.to_multiset()),
{
    let mut merged: Vec<u64> = Vec::new();
    let mut i: usize = 0;
    let mut j: usize = 0;
    proof {
        assert(left@.take(0) =~= Seq::<u64>::empty());
        assert(right@.take(0) =~= Seq::<u64>::empty());
        assert(merged@ =~= Seq::<u64>::empty());
        lemma_merge_start();
    }
    while i < left.len() || j < right.len()
        invariant
            i <= left.len(),
            j <= right.len(),
            sorted_by(left@, ascending()),
            sorted_by(right@, ascending()),
            sorted_by(merged@, ascending()),
            merged@.to_multiset() == left@.take(i as int).to_multiset().add(
                right@.take(j as int).to_multiset(),
            ),
            forall|k: int| 0 <= k < merged.len() && i < left.len() ==> merged[k] <= left[i as int],
            forall|k: int|
                0 <= k < merged.len() && j < right.len() ==> merged[k] <= right[j as int],
        decreases left.len() - i + right.len() - j,
    {
        let ghost before = merged@;
        let from_left: bool = if j >= right.len() {
            true
        } else if i >= left.len() {
            false
        } else {
            left[i] <= right[j]
        };
        if from_left {
            let x: u64 = left[i];
            merged.push(x);
            proof {
                assert(left@.take(i + 1) =~= left@.take(i as int).push(x));
                lemma_merge_step(left@.take(i as int), right@.take(j as int), before, x);
                assert forall|a: int, b: int| 0 <= a < b < merged.len() implies ascending()(
                    merged[a],
                    merged[b],
                ) by {
                    if b < before.len() {
                        assert(ascending()(before[a], before[b]));
                    }
                }
                assert forall|k: int| 0 <= k < merged.len() && i + 1 < left.len() implies merged[k]
                    <= left[i + 1] by {
                    assert(ascending()(left[i as int], left[i + 1]));
                }
            }
            i += 1;
        } else {
            let x: u64 = right[j];
            merged.push(x);
            proof {
                assert(right@.take(j + 1) =~= right@.take(j as int).push(x));
                lemma_merge_step(left@.take(i as int), right@.take(j as int), before, x);
                assert forall|a: int, b: int| 0 <= a < b < merged.len() implies ascending()(
                    merged[a],
                    merged[b],
                ) by {
                    if b < before.len() {
                        assert(ascending()(before[a], before[b]));
                    }
                }
                assert forall|k: int| 0 <= k < merged.len() && j + 1 < right.len() implies merged[k]
                    <= right[j + 1] by {
                    assert(ascending()(right[j as int], right[j + 1]));
                }
            }
            j += 1;
        }
    }
    assert(left@.take(left.len() as int) =~= left@);
    assert(right@.take(right.len() as int) =~= right@);
    merged
}

/// Sorts the samples from `lo` up to `hi` into a new vector.
fn sort_range(samples: &Vec<u64>, lo: usize, hi: usize) -> (sorted: Vec<u64>)
    requires
        lo <= hi <= samples.len(),
    ensures
        sorted_by(sorted@, ascending()),
        sorted@.to_multiset() == samples@.subrange(lo as int, hi as int).to_multiset(),
    decreases hi - lo,
{
    let ghost part = samples@.subrange(lo as int, hi as int);
    if hi - lo <= 1 {
        let mut sorted: Vec<u64> = Vec::new();
        if hi - lo == 1 {
            sorted.push(samples[lo]);
        }
        assert(sorted@ =~= part);
        sorted
    } else {
        let mid: usize = lo + (hi - lo) / 2;
        let left = sort_range(samples, lo, mid);
        let right = sort_range(samples, mid, hi);
        proof {
            let front = samples@.subrange(lo as int, mid as int);
            let back = samples@.subrange(mid as int, hi as int);
            assert(part =~= front + back);
            lemma_multiset_commutative(front, back);
        }
        merge_runs(&left, &right)
    }
}

/// Sorts the samples into a new vector, smallest first.
pub fn sort_samples(samples: &Vec<u64>) -> (sorted: Vec<u64>)
    ensures
        sorted@ == sorted_samples(samples@),
{
    let sorted = sort_range(samples, 0, samples.len());
    proof {
        assert(samples@.subrange(0, samples.len() as int) =~= samples@);
        lemma_sorted_is_unique(samples@, sorted@);
    }
    sorted
}

/// The rank of a percentile within `count` sorted samples.
pub fn rank_of(count: usize, permille: u32) -> (rank: usize)
    requires
        count > 0,
    ensures
        rank == percentile_rank(count as nat, permille as nat),
        rank < count,
{
    wide_rank(count as u64, permille) as usize
}

/// The rank of a percentile within `count` sorted samples, for a count of 64
/// bits.
pub fn wide_rank(count: u64, permille: u32) -> (rank: u64)
    requires
        count > 0,
    ensures
        rank == percentile_rank(count as nat, permille as nat),
        rank < count,
{
    let scaled: u128 = wide_mul(count, permille as u64);
    if scaled < 10 {
        0
    } else {
        let raw: u128 = (scaled - 10) / 1000;
        if raw > (count - 1) as u128 {
            count - 1
        } else {
            raw as u64
        }
    }
}

/// Selects the percentile `permille` from samples that are already sorted.
pub fn select_percentile(sorted: &Vec<u64>, permille: u32) -> (value: u64)
    requires
        sorted@ == sorted_samples(sorted@),
    ensures
        value == percentile(sorted@, permille as nat),
{
    if sorted.len() == 0 {
        0
    } else {
        sorted[rank_of(sorted.len(), permille)]
    }
}

/// The percentiles `permilles` of the samples, in the order asked for.
pub fn percentiles(samples: &Vec<u64>, permilles: &[u32]) -> (values: Vec<u64>)
    ensures
        values.len() == permilles.len(),
        forall|i: int|
            0 <= i < permilles.len() ==> #[trigger] values[i] == percentile(
                samples@,
                permilles[i] as nat,
            ),
{
    let sorted = sort_samples(samples);
    proof {
        lemma_sorted_samples(samples@);
    }
    let mut values: Vec<u64> = Vec::new();
    let mut i: usize = 0;
    while i < permilles.len()
        invariant
            i <= permilles.len(),
            values.len() == i,
            sorted@ == sorted_samples(samples@),
            sorted.len() == samples.len(),
            forall|k: int|
                0 <= k < i ==> #[trigger] values[k] == percentile(samples@, permilles[k] as nat),
        decreases permilles.len() - i,
    {
        let value: u64 = if sorted.len() == 0 {
            0
        } else {
            sorted[rank_of(sorted.len(), permilles[i])]
        };
        values.push(value);
        i += 1;
    }
    values
}

} // verus!
