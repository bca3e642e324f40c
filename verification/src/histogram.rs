//! Percentiles without the samples: a histogram counts the samples bucket by
//! bucket, and answers a percentile with the top of the bucket that the exact
//! percentile falls into. The answer is never below the exact percentile, and
//! above it by less than one part in 128.

use crate::buckets::{
    bucket_index, bucket_of, bucket_top, bucket_upper, lemma_bucket_grows, lemma_bucket_in_range,
    BUCKETS,
};
use crate::percentile::{lemma_sorted_samples, percentile, percentile_rank, sorted_samples, wide_rank};
use vstd::prelude::*;

verus! {

/// How many of the samples fall into bucket `i`.
pub open spec fn count_in(samples: Seq<u64>, i: nat) -> nat
    decreases samples.len(),
{
    if samples.len() == 0 {
        0
    } else {
        count_in(samples.drop_last(), i) + if bucket_of(samples.last() as nat) == i {
            1nat
        } else {
            0nat
        }
    }
}

/// How many of the samples fall into a bucket before bucket `b`.
pub open spec fn count_before(samples: Seq<u64>, b: nat) -> nat
    decreases samples.len(),
{
    if samples.len() == 0 {
        0
    } else {
        count_before(samples.drop_last(), b) + if bucket_of(samples.last() as nat) < b {
            1nat
        } else {
            0nat
        }
    }
}

/// The sum of the first `n` counts.
pub open spec fn counts_sum(counts: Seq<u64>, n: nat) -> nat
    decreases n,
{
    if n == 0 {
        0
    } else {
        counts_sum(counts, (n - 1) as nat) + counts[n - 1] as nat
    }
}

/// What the histogram answers for a percentile of the samples: the top of the
/// bucket of the exact percentile, or 0 where there is no sample.
pub open spec fn approximate_percentile(samples: Seq<u64>, permille: nat) -> nat {
    if samples.len() == 0 {
        0
    } else {
        bucket_top(bucket_of(percentile(samples, permille) as nat))
    }
}

/// No more samples fall into a bucket, or before it, than there are samples;
/// and all fall before the end of the buckets.
pub proof fn lemma_counts_bounded(samples: Seq<u64>, b: nat)
    ensures
        count_in(samples, b) <= samples.len(),
        count_before(samples, b) <= samples.len(),
        b >= BUCKETS ==> count_before(samples, b) == samples.len(),
    decreases samples.len(),
{
    if samples.len() > 0 {
        lemma_counts_bounded(samples.drop_last(), b);
        lemma_bucket_in_range(samples.last() as nat);
    }
}

/// The samples before bucket `b + 1` are those before bucket `b` and those in
/// bucket `b`.
pub proof fn lemma_count_before_step(samples: Seq<u64>, b: nat)
    ensures
        count_before(samples, b + 1) == count_before(samples, b) + count_in(samples, b),
    decreases samples.len(),
{
    if samples.len() > 0 {
        lemma_count_before_step(samples.drop_last(), b);
    }
}

/// Where every count is the number of samples in its bucket, the first `n`
/// counts add up to the number of samples before bucket `n`.
pub proof fn lemma_counts_sum(counts: Seq<u64>, samples: Seq<u64>, n: nat)
    requires
        n <= counts.len(),
        forall|i: int| 0 <= i < counts.len() ==> #[trigger] counts[i] == count_in(samples, i as nat),
    ensures
        counts_sum(counts, n) == count_before(samples, n),
    decreases n,
{
    if n == 0 {
        lemma_count_before_zero(samples);
    } else {
        lemma_counts_sum(counts, samples, (n - 1) as nat);
        lemma_count_before_step(samples, (n - 1) as nat);
    }
}

/// No sample falls before the first bucket.
proof fn lemma_count_before_zero(samples: Seq<u64>)
    ensures
        count_before(samples, 0) == 0,
    decreases samples.len(),
{
    if samples.len() > 0 {
        lemma_count_before_zero(samples.drop_last());
    }
}

/// Taking a sample out takes one from the count if the sample fell before
/// bucket `b`, and nothing otherwise.
proof fn lemma_count_remove(samples: Seq<u64>, at: int, b: nat)
    requires
        0 <= at < samples.len(),
    ensures
        count_before(samples, b) == count_before(samples.remove(at), b) + if bucket_of(
            samples[at] as nat,
        ) < b {
            1nat
        } else {
            0nat
        },
    decreases samples.len(),
{
    if at == samples.len() - 1 {
        assert(samples.remove(at) =~= samples.drop_last());
    } else {
        lemma_count_remove(samples.drop_last(), at, b);
        assert(samples.remove(at).drop_last() =~= samples.drop_last().remove(at));
        assert(samples.remove(at).last() == samples.last());
    }
}

/// The counts do not depend on the order of the samples.
pub proof fn lemma_count_any_order(samples: Seq<u64>, other: Seq<u64>, b: nat)
    requires
        samples.to_multiset() == other.to_multiset(),
    ensures
        count_before(samples, b) == count_before(other, b),
    decreases samples.len(),
{
    broadcast use vstd::seq_lib::group_to_multiset_ensures;

    assert(samples.len() == other.len()) by {
        vstd::seq_lib::to_multiset_len(samples);
        vstd::seq_lib::to_multiset_len(other);
    }
    if samples.len() > 0 {
        let x = samples.last();
        let front = samples.drop_last();
        assert(samples.contains(x)) by {
            assert(samples[samples.len() - 1] == x);
        }
        assert(other.to_multiset().count(x) > 0);
        assert(other.contains(x));
        let at = choose|at: int| 0 <= at < other.len() && other[at] == x;
        let rest = other.remove(at);
        assert(front =~= samples.remove(samples.len() - 1));
        vstd::seq_lib::to_multiset_remove(samples, samples.len() - 1);
        vstd::seq_lib::to_multiset_remove(other, at);
        assert(front.to_multiset() =~= rest.to_multiset());
        lemma_count_any_order(front, rest, b);
        lemma_count_remove(other, at, b);
    }
}

/// In sorted samples, those that fall before bucket `b` come first.
pub proof fn lemma_sorted_count(sorted: Seq<u64>, b: nat, k: int)
    requires
        forall|i: int, j: int| 0 <= i <= j < sorted.len() ==> sorted[i] <= sorted[j],
        0 <= k < sorted.len(),
    ensures
        k < count_before(sorted, b) <==> bucket_of(sorted[k] as nat) < b,
    decreases sorted.len(),
{
    let n = sorted.len() as int;
    let front = sorted.drop_last();
    let last = sorted[n - 1];
    lemma_counts_bounded(front, b);
    if bucket_of(last as nat) < b {
        lemma_bucket_grows(sorted[k] as nat, last as nat);
        if n >= 2 {
            lemma_bucket_grows(sorted[n - 2] as nat, last as nat);
            lemma_sorted_count(front, b, n - 2);
        }
    } else if k < n - 1 {
        lemma_sorted_count(front, b, k);
    }
}

/// The bucket whose count carries the running sum of the counts over a rank
/// is the bucket of the sample at that rank in the sorted samples.
pub proof fn lemma_rank_bucket(samples: Seq<u64>, rank: int, b: nat)
    requires
        0 <= rank < samples.len(),
        count_before(samples, b) <= rank < count_before(samples, b + 1),
    ensures
        bucket_of(sorted_samples(samples)[rank] as nat) == b,
{
    let sorted = sorted_samples(samples);
    lemma_sorted_samples(samples);
    lemma_count_any_order(samples, sorted, b);
    lemma_count_any_order(samples, sorted, b + 1);
    lemma_sorted_count(sorted, b, rank);
    lemma_sorted_count(sorted, b + 1, rank);
}

/// The histogram's answer is never below the exact percentile, and above it
/// by less than one part in 128 of it.
pub proof fn lemma_approximation_bound(samples: Seq<u64>, permille: nat)
    ensures
        percentile(samples, permille) <= approximate_percentile(samples, permille),
        128 * (approximate_percentile(samples, permille) - percentile(samples, permille))
            <= percentile(samples, permille),
{
    if samples.len() > 0 {
        crate::buckets::lemma_bucket_holds(percentile(samples, permille) as nat);
    }
}

/// A histogram of latencies.
pub struct Histogram {
    counts: Vec<u64>,
    total: u64,
    samples: Ghost<Seq<u64>>,
}

impl Histogram {
    /// The samples that were recorded, in the order in which they came. The
    /// histogram does not store them: they are what its counts speak of.
    pub closed spec fn samples(&self) -> Seq<u64> {
        self.samples@
    }

    /// Every count is the number of recorded samples in its bucket.
    pub closed spec fn wf(&self) -> bool {
        &&& self.counts@.len() == BUCKETS
        &&& self.total == self.samples@.len()
        &&& forall|i: int|
            0 <= i < BUCKETS ==> #[trigger] self.counts@[i] == count_in(self.samples@, i as nat)
    }

    /// An empty histogram.
    pub fn new() -> (histogram: Self)
        ensures
            histogram.wf(),
            histogram.samples() == Seq::<u64>::empty(),
    {
        Self { counts: vec![0u64; BUCKETS], total: 0, samples: Ghost(Seq::empty()) }
    }

    /// Forgets every sample.
    pub fn reset(&mut self)
        ensures
            final(self).wf(),
            final(self).samples() == Seq::<u64>::empty(),
    {
        self.counts = vec![0u64; BUCKETS];
        self.total = 0;
        self.samples = Ghost(Seq::empty());
    }

    /// The number of samples that were recorded.
    pub fn len(&self) -> (count: u64)
        requires
            self.wf(),
        ensures
            count == self.samples().len(),
    {
        self.total
    }

    /// Records a sample.
    pub fn record(&mut self, value: u64)
        requires
            old(self).wf(),
            old(self).samples().len() < u64::MAX,
        ensures
            final(self).wf(),
            final(self).samples() == old(self).samples().push(value),
    {
        let index = bucket_index(value);
        let ghost before = self.samples@;
        let ghost after = before.push(value);
        proof {
            lemma_counts_bounded(before, index as nat);
            assert(after.drop_last() =~= before);
        }
        let count: u64 = self.counts[index];
        self.counts.set(index, count + 1);
        self.total = self.total + 1;
        self.samples = Ghost(after);
    }

    /// The percentile `permille`, in tenths of a percent, of the recorded
    /// samples, to the precision of the buckets.
    pub fn quantile(&self, permille: u32) -> (value: u64)
        requires
            self.wf(),
        ensures
            value == approximate_percentile(self.samples(), permille as nat),
    {
        if self.total == 0 {
            return 0;
        }
        let rank: u64 = wide_rank(self.total, permille);
        let mut bucket: usize = 0;
        let mut seen: u64 = 0;
        proof {
            lemma_counts_sum(self.counts@, self.samples@, BUCKETS as nat);
            lemma_counts_bounded(self.samples@, BUCKETS as nat);
        }
        loop
            invariant
                self.wf(),
                bucket < BUCKETS,
                seen == counts_sum(self.counts@, bucket as nat),
                seen <= rank < self.total,
                counts_sum(self.counts@, BUCKETS as nat) == self.total,
            ensures
                bucket < BUCKETS,
                counts_sum(self.counts@, bucket as nat) <= rank < counts_sum(
                    self.counts@,
                    (bucket + 1) as nat,
                ),
            decreases BUCKETS - bucket,
        {
            proof {
                lemma_sum_grows(self.counts@, (bucket + 1) as nat, BUCKETS as nat);
            }
            let here: u64 = self.counts[bucket];
            if rank - seen < here {
                break;
            }
            seen = seen + here;
            bucket = bucket + 1;
        }
        proof {
            lemma_counts_sum(self.counts@, self.samples@, bucket as nat);
            lemma_counts_sum(self.counts@, self.samples@, (bucket + 1) as nat);
            lemma_rank_bucket(self.samples@, rank as int, bucket as nat);
        }
        bucket_upper(bucket)
    }
}

/// The running sum of the counts never falls.
proof fn lemma_sum_grows(counts: Seq<u64>, n: nat, m: nat)
    requires
        n <= m,
    ensures
        counts_sum(counts, n) <= counts_sum(counts, m),
    decreases m - n,
{
    if n < m {
        lemma_sum_grows(counts, n, (m - 1) as nat);
    }
}

} // verus!
