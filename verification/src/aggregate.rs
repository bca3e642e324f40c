//! The single consumer of the outcomes of a run: it drops the outcomes of the
//! warm-up, logs the others, and reports on them while the run goes on and at
//! its end.

use crate::outcome::Record;
use crate::percentile::{percentile, percentiles};
use crate::report::{goodput_milli, spec_goodput_milli};
use crate::stats::{
    classes_of, collect_latencies, counts_of, latency_samples, lemma_counts_push,
    lemma_counts_sum, BenchLog, Counts,
};
use vstd::prelude::*;

verus! {

/// The percentiles of the final report, in tenths of a percent:
/// 50, 90, 95, 99, 99.9 and 100 percent.
pub const REPORT_PERMILLES: [u32; 6] = [500, 900, 950, 990, 999, 1000];

/// The outcomes that count, of all that were observed: all but the first
/// `warmup`, in the order in which they arrived.
pub open spec fn kept(observed: Seq<Record>, warmup: nat) -> Seq<Record> {
    if observed.len() <= warmup {
        Seq::empty()
    } else {
        observed.skip(warmup as int)
    }
}

/// Of `n` outcomes observed after a warm-up of `w`, exactly `n - w` count, or
/// none where the warm-up was not yet over; those that count are the outcomes
/// from number `w` on.
pub proof fn lemma_kept_after_warmup(observed: Seq<Record>, warmup: nat)
    ensures
        kept(observed, warmup).len() == if observed.len() > warmup {
            observed.len() - warmup
        } else {
            0
        },
        forall|i: int|
            0 <= i < kept(observed, warmup).len() ==> kept(observed, warmup)[i] == observed[warmup
                + i],
{
}

/// A run has failed if the dispatcher could not keep to the schedule, or if
/// fewer outcomes arrived than requests were scheduled.
pub open spec fn run_failed(overloaded: bool, received: nat, expected: nat) -> bool {
    overloaded || received < expected
}

/// The goodput of a run of `seconds` seconds with `successes` successes, in
/// thousandths of a request per second; a run of no time has none.
pub open spec fn goodput_of(successes: u64, seconds: u64) -> Option<u128> {
    if seconds > 0 {
        Some(spec_goodput_milli(successes as nat, seconds as nat) as u128)
    } else {
        None
    }
}

/// What a rolling report says of the outcomes since the report before it.
#[derive(Clone, Copy, Debug, PartialEq, Eq, Structural)]
pub struct WindowReport {
    /// How many outcomes of the window fall under each head.
    pub counts: Counts,
    /// The percentile asked for of their latencies, in microseconds.
    pub latency: u64,
}

/// The summary of a run.
#[derive(Debug)]
pub struct ExperimentResult {
    /// The number of outcomes that arrived, those of the warm-up included.
    pub received: u64,
    /// How many of the outcomes that count fall under each head.
    pub counts: Counts,
    /// The latencies at `REPORT_PERMILLES`, in microseconds.
    pub latencies: Vec<u64>,
    /// The goodput, in thousandths of a request per second.
    pub goodput_milli: Option<u128>,
    /// Whether the run has failed.
    pub failed: bool,
}

/// The aggregator of a run.
pub struct Aggregator {
    warmup: u64,
    received: u64,
    log: BenchLog,
    window_start: usize,
    observed: Ghost<Seq<Record>>,
}

impl Aggregator {
    /// The number of outcomes to drop as warm-up.
    pub closed spec fn warmup(&self) -> nat {
        self.warmup as nat
    }

    /// Every outcome observed so far, in the order of arrival.
    pub closed spec fn observed(&self) -> Seq<Record> {
        self.observed@
    }

    /// The outcomes that were logged.
    pub closed spec fn recorded(&self) -> Seq<Record> {
        self.log@
    }

    /// How many of the logged outcomes earlier rolling reports have covered.
    pub closed spec fn reported(&self) -> nat {
        self.window_start as nat
    }

    /// The logged outcomes that no rolling report has covered yet.
    pub open spec fn window(&self) -> Seq<Record> {
        self.recorded().skip(self.reported() as int)
    }

    /// The log holds exactly the outcomes that count, and the counters agree
    /// with what was observed.
    pub closed spec fn wf(&self) -> bool {
        &&& self.log.wf()
        &&& self.received == self.observed@.len()
        &&& self.log@ == kept(self.observed@, self.warmup as nat)
        &&& self.window_start <= self.log@.len()
    }

    /// An aggregator that drops the first `num_warmup` outcomes, with room for
    /// `capacity` logged outcomes.
    pub fn new(num_warmup: u64, capacity: usize) -> (agg: Self)
        ensures
            agg.wf(),
            agg.warmup() == num_warmup,
            agg.observed() == Seq::<Record>::empty(),
            agg.recorded() == Seq::<Record>::empty(),
            agg.reported() == 0,
    {
        Self {
            warmup: num_warmup,
            received: 0,
            log: BenchLog::new(capacity),
            window_start: 0,
            observed: Ghost(Seq::empty()),
        }
    }

    /// Takes in one outcome: it is counted as received, and logged unless it
    /// is one of the first `warmup` outcomes to arrive.
    pub fn observe(&mut self, record: Record)
        requires
            old(self).wf(),
            old(self).observed().len() < u64::MAX,
        ensures
            final(self).wf(),
            final(self).warmup() == old(self).warmup(),
            final(self).reported() == old(self).reported(),
            final(self).observed() == old(self).observed().push(record),
            final(self).recorded() == kept(final(self).observed(), final(self).warmup()),
            final(self).recorded() == if old(self).observed().len() >= old(self).warmup() {
                old(self).recorded().push(record)
            } else {
                old(self).recorded()
            },
    {
        let ghost before = self.observed@;
        let ghost after = before.push(record);
        proof {
            let w = self.warmup as int;
            if before.len() > w {
                assert(after.skip(w) =~= before.skip(w).push(record));
            } else if before.len() == w {
                assert(after.skip(w) =~= Seq::<Record>::empty().push(record));
            }
        }
        self.observed = Ghost(after);
        if self.received >= self.warmup {
            self.log.add_record(record);
        }
        self.received = self.received + 1;
    }

    /// The number of outcomes that arrived, those of the warm-up included.
    pub fn num_received(&self) -> (count: u64)
        requires
            self.wf(),
        ensures
            count == self.observed().len(),
    {
        self.received
    }

    /// The log of the outcomes that count.
    pub fn log(&self) -> (log: &BenchLog)
        requires
            self.wf(),
        ensures
            log.wf(),
            log@ == self.recorded(),
    {
        &self.log
    }

    /// Reports on the outcomes logged since the last rolling report, and
    /// starts a new window.
    pub fn roll(&mut self, permille: u32) -> (report: WindowReport)
        requires
            old(self).wf(),
        ensures
            final(self).wf(),
            final(self).warmup() == old(self).warmup(),
            final(self).observed() == old(self).observed(),
            final(self).recorded() == old(self).recorded(),
            final(self).reported() == old(self).recorded().len(),
            report.counts == counts_of(classes_of(old(self).window())),
            report.counts.sum() == old(self).window().len(),
            report.latency == percentile(latency_samples(old(self).window()), permille as nat),
    {
        let records = self.log.records();
        let from: usize = self.window_start;
        let ghost window = records@.skip(from as int);
        let mut counts = Counts::new();
        let mut i: usize = from;
        assert(classes_of(window.take(0)) =~= Seq::empty());
        while i < records.len()
            invariant
                from <= i <= records.len(),
                window == records@.skip(from as int),
                counts == counts_of(classes_of(window.take(i - from))),
            decreases records.len() - i,
        {
            let ghost seen = classes_of(window.take(i - from));
            let class = records[i].classification();
            proof {
                lemma_counts_sum(seen);
                assert(classes_of(window.take(i - from + 1)) =~= seen.push(class));
            }
            counts.add(class);
            proof {
                lemma_counts_push(seen, class, counts);
            }
            i += 1;
        }
        proof {
            assert(window.take(records.len() - from) =~= window);
            lemma_counts_sum(classes_of(window));
        }
        let samples = collect_latencies(records, from);
        let mut asked: Vec<u32> = Vec::new();
        asked.push(permille);
        let values = percentiles(&samples, asked.as_slice());
        let report = WindowReport { counts, latency: values[0] };
        self.window_start = self.log.total();
        report
    }

    /// Sums the run up. `overloaded` tells whether the dispatcher gave up,
    /// `expected` how many requests were scheduled, and `seconds` how long the
    /// measurement took.
    pub fn finish(&self, overloaded: bool, expected: u64, seconds: u64) -> (result:
        ExperimentResult)
        requires
            self.wf(),
        ensures
            result.received == self.observed().len(),
            result.counts == counts_of(classes_of(self.recorded())),
            result.counts.sum() == self.recorded().len(),
            result.latencies.len() == REPORT_PERMILLES.len(),
            forall|i: int|
                0 <= i < REPORT_PERMILLES.len() ==> #[trigger] result.latencies[i] == percentile(
                    latency_samples(self.recorded()),
                    REPORT_PERMILLES[i] as nat,
                ),
            result.goodput_milli == goodput_of(result.counts.successes, seconds),
            result.failed == run_failed(overloaded, self.observed().len(), expected as nat),
    {
        let counts = self.log.counts();
        let permilles: [u32; 6] = REPORT_PERMILLES;
        ExperimentResult {
            received: self.received,
            counts,
            latencies: self.log.latencies(permilles.as_slice()),
            goodput_milli: if seconds > 0 {
                Some(goodput_milli(counts.successes, seconds))
            } else {
                None
            },
            failed: overloaded || self.received < expected,
        }
    }
}

} // verus!
