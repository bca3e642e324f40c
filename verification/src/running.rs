//! Running statistics for runs that are too long to keep every outcome: the
//! outcomes are counted by class, and their latencies go into a histogram.

use crate::aggregate::{
    goodput_of, run_failed, ExperimentResult, WindowReport, REPORT_PERMILLES,
};
use crate::histogram::{approximate_percentile, Histogram};
use crate::outcome::Classification;
use crate::report::goodput_milli;
use crate::stats::{counts_of, lemma_counts_push, lemma_counts_sum, Counts};
use vstd::prelude::*;

verus! {

/// The running statistics of a run, or of a window of it.
pub struct RunningStats {
    histogram: Histogram,
    counts: Counts,
    classes: Ghost<Seq<Classification>>,
}

impl RunningStats {
    /// The classes of the outcomes that were taken in, in their order.
    pub closed spec fn classes(&self) -> Seq<Classification> {
        self.classes@
    }

    /// The latencies of the outcomes that were taken in, in their order.
    pub closed spec fn latencies(&self) -> Seq<u64> {
        self.histogram.samples()
    }

    /// The counters agree with the outcomes that were taken in.
    pub closed spec fn wf(&self) -> bool {
        &&& self.histogram.wf()
        &&& self.classes@.len() == self.histogram.samples().len()
        &&& self.counts == counts_of(self.classes@)
    }

    /// Statistics of no outcome.
    pub fn new() -> (stats: Self)
        ensures
            stats.wf(),
            stats.classes() == Seq::<Classification>::empty(),
            stats.latencies() == Seq::<u64>::empty(),
    {
        Self { histogram: Histogram::new(), counts: Counts::new(), classes: Ghost(Seq::empty()) }
    }

    /// Starts over, as at the boundary of a window.
    pub fn reset(&mut self)
        ensures
            final(self).wf(),
            final(self).classes() == Seq::<Classification>::empty(),
            final(self).latencies() == Seq::<u64>::empty(),
    {
        self.histogram.reset();
        self.counts = Counts::new();
        self.classes = Ghost(Seq::empty());
    }

    /// Takes in an outcome of the given class and latency, in microseconds.
    pub fn observe(&mut self, class: Classification, latency: u64)
        requires
            old(self).wf(),
            old(self).classes().len() < u64::MAX,
        ensures
            final(self).wf(),
            final(self).classes() == old(self).classes().push(class),
            final(self).latencies() == old(self).latencies().push(latency),
    {
        let ghost before = self.classes@;
        proof {
            lemma_counts_sum(before);
        }
        self.histogram.record(latency);
        self.counts.add(class);
        proof {
            lemma_counts_push(before, class, self.counts);
        }
        self.classes = Ghost(before.push(class));
    }

    /// The number of outcomes that were taken in.
    pub fn total(&self) -> (count: u64)
        requires
            self.wf(),
        ensures
            count == self.classes().len(),
    {
        self.histogram.len()
    }

    /// How many of the outcomes fall under each head.
    pub fn counts(&self) -> (counts: Counts)
        requires
            self.wf(),
        ensures
            counts == counts_of(self.classes()),
            counts.sum() == self.classes().len(),
    {
        let total: u64 = self.histogram.len();
        proof {
            lemma_counts_sum(self.classes@);
        }
        self.counts
    }

    /// The percentile `permille`, in tenths of a percent, of the latencies, to
    /// the precision of the histogram.
    pub fn quantile(&self, permille: u32) -> (value: u64)
        requires
            self.wf(),
        ensures
            value == approximate_percentile(self.latencies(), permille as nat),
    {
        self.histogram.quantile(permille)
    }
}

/// The aggregator of a long run: it drops the outcomes of the warm-up and
/// takes the others into running statistics.
pub struct StreamAggregator {
    warmup: u64,
    received: u64,
    stats: RunningStats,
    window: RunningStats,
}

impl StreamAggregator {
    /// The number of outcomes to drop as warm-up.
    pub closed spec fn warmup(&self) -> nat {
        self.warmup as nat
    }

    /// The number of outcomes that arrived, those of the warm-up included.
    pub closed spec fn received(&self) -> nat {
        self.received as nat
    }

    /// The classes of the outcomes that count, in the order of arrival.
    pub closed spec fn classes(&self) -> Seq<Classification> {
        self.stats.classes()
    }

    /// The latencies of the outcomes that count, in the order of arrival.
    pub closed spec fn latencies(&self) -> Seq<u64> {
        self.stats.latencies()
    }

    /// The classes of the outcomes that count and that no rolling report has
    /// covered yet.
    pub closed spec fn window_classes(&self) -> Seq<Classification> {
        self.window.classes()
    }

    /// The latencies of the outcomes that count and that no rolling report
    /// has covered yet.
    pub closed spec fn window_latencies(&self) -> Seq<u64> {
        self.window.latencies()
    }

    /// The statistics hold exactly the outcomes that arrived after the
    /// warm-up.
    pub closed spec fn wf(&self) -> bool {
        &&& self.stats.wf()
        &&& self.window.wf()
        &&& self.window.classes().len() <= self.stats.classes().len()
        &&& self.stats.classes().len() == if self.received > self.warmup {
            self.received - self.warmup
        } else {
            0
        }
    }

    /// An aggregator that drops the first `num_warmup` outcomes.
    pub fn new(num_warmup: u64) -> (agg: Self)
        ensures
            agg.wf(),
            agg.warmup() == num_warmup,
            agg.received() == 0,
            agg.classes() == Seq::<Classification>::empty(),
            agg.latencies() == Seq::<u64>::empty(),
            agg.window_classes() == Seq::<Classification>::empty(),
            agg.window_latencies() == Seq::<u64>::empty(),
    {
        Self {
            warmup: num_warmup,
            received: 0,
            stats: RunningStats::new(),
            window: RunningStats::new(),
        }
    }

    /// Takes in one outcome: it is counted as received, and goes into the
    /// statistics unless it is one of the first `warmup` outcomes to arrive.
    pub fn observe(&mut self, class: Classification, latency: u64)
        requires
            old(self).wf(),
            old(self).received() < u64::MAX,
        ensures
            final(self).wf(),
            final(self).warmup() == old(self).warmup(),
            final(self).received() == old(self).received() + 1,
            final(self).classes() == if old(self).received() >= old(self).warmup() {
                old(self).classes().push(class)
            } else {
                old(self).classes()
            },
            final(self).latencies() == if old(self).received() >= old(self).warmup() {
                old(self).latencies().push(latency)
            } else {
                old(self).latencies()
            },
            final(self).classes().len() == if final(self).received() > final(self).warmup() {
                final(self).received() - final(self).warmup()
            } else {
                0
            },
            final(self).window_classes() == if old(self).received() >= old(self).warmup() {
                old(self).window_classes().push(class)
            } else {
                old(self).window_classes()
            },
            final(self).window_latencies() == if old(self).received() >= old(self).warmup() {
                old(self).window_latencies().push(latency)
            } else {
                old(self).window_latencies()
            },
    {
        if self.received >= self.warmup {
            self.stats.observe(class, latency);
            self.window.observe(class, latency);
        }
        self.received = self.received + 1;
    }

    /// Reports on the outcomes taken in since the last rolling report, and
    /// starts a new window.
    pub fn roll(&mut self, permille: u32) -> (report: WindowReport)
        requires
            old(self).wf(),
        ensures
            final(self).wf(),
            final(self).warmup() == old(self).warmup(),
            final(self).received() == old(self).received(),
            final(self).classes() == old(self).classes(),
            final(self).latencies() == old(self).latencies(),
            final(self).window_classes() == Seq::<Classification>::empty(),
            final(self).window_latencies() == Seq::<u64>::empty(),
            report.counts == counts_of(old(self).window_classes()),
            report.counts.sum() == old(self).window_classes().len(),
            report.latency == approximate_percentile(old(self).window_latencies(), permille as nat),
    {
        let report = WindowReport {
            counts: self.window.counts(),
            latency: self.window.quantile(permille),
        };
        self.window.reset();
        report
    }

    /// The number of outcomes that arrived, those of the warm-up included.
    pub fn num_received(&self) -> (count: u64)
        ensures
            count == self.received(),
    {
        self.received
    }

    /// The statistics of the outcomes that count.
    pub fn stats(&self) -> (stats: &RunningStats)
        requires
            self.wf(),
        ensures
            stats.wf(),
            stats.classes() == self.classes(),
            stats.latencies() == self.latencies(),
    {
        &self.stats
    }

    /// Sums the run up. `overloaded` tells whether the dispatcher gave up,
    /// `expected` how many requests were scheduled, and `seconds` how long the
    /// measurement took. The latencies are those of the histogram.
    pub fn finish(&self, overloaded: bool, expected: u64, seconds: u64) -> (result:
        ExperimentResult)
        requires
            self.wf(),
        ensures
            result.received == self.received(),
            result.counts == counts_of(self.classes()),
            result.counts.sum() == self.classes().len(),
            result.latencies.len() == REPORT_PERMILLES.len(),
            forall|i: int|
                0 <= i < REPORT_PERMILLES.len() ==> #[trigger] result.latencies[i]
                    == approximate_percentile(self.latencies(), REPORT_PERMILLES[i] as nat),
            result.goodput_milli == goodput_of(result.counts.successes, seconds),
            result.failed == run_failed(overloaded, self.received(), expected as nat),
    {
        let counts = self.stats.counts();
        let mut latencies: Vec<u64> = Vec::new();
        let mut i: usize = 0;
        while i < 6
            invariant
                i <= 6,
                self.wf(),
                latencies.len() == i,
                forall|k: int|
                    0 <= k < i ==> #[trigger] latencies[k] == approximate_percentile(
                        self.latencies(),
                        REPORT_PERMILLES[k] as nat,
                    ),
            decreases 6 - i,
        {
            let permilles: [u32; 6] = REPORT_PERMILLES;
            latencies.push(self.stats.quantile(permilles[i]));
            i += 1;
        }
        ExperimentResult {
            received: self.received,
            counts,
            latencies,
            goodput_milli: if seconds > 0 {
                Some(goodput_milli(counts.successes, seconds))
            } else {
                None
            },
            failed: overloaded || self.received < expected,
        }
    }
}

} // verus!
