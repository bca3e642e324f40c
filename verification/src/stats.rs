//! The log of a run: the outcomes that count, how many of them fall under
//! each head, and the percentiles of their latencies.

use crate::outcome::{Classification, Record};
use crate::percentile::{percentile, percentiles};
use vstd::prelude::*;

verus! {

/// The heads under which outcomes are counted.
#[derive(Clone, Copy, Debug, PartialEq, Eq, Structural)]
pub enum Tally {
    /// The target answered, and no checksum contradicts the answer.
    Successes,
    /// No answer came within the timeout.
    Timeouts,
    /// The target answered with an error status.
    StatusErrors,
    /// No connection to the target could be made.
    ConnectErrors,
    /// The exchange failed in some other way.
    OtherErrors,
    /// The target answered, but with a wrong checksum.
    IntegrityFailures,
}

/// Whether an outcome of class `class` is counted under `head`.
pub open spec fn counts_under(class: Classification, head: Tally) -> bool {
    match head {
        Tally::Successes => class.is_success(),
        Tally::Timeouts => class.is_timeout(),
        Tally::StatusErrors => class is StatusError,
        Tally::ConnectErrors => class is ConnectError,
        Tally::OtherErrors => class is OtherError,
        Tally::IntegrityFailures => class.is_integrity_failure(),
    }
}

/// How many of the classes are counted under `head`.
pub open spec fn class_tally(classes: Seq<Classification>, head: Tally) -> nat
    decreases classes.len(),
{
    if classes.len() == 0 {
        0
    } else {
        class_tally(classes.drop_last(), head) + if counts_under(classes.last(), head) {
            1nat
        } else {
            0nat
        }
    }
}

/// The classes of the records, in their order.
pub open spec fn classes_of(records: Seq<Record>) -> Seq<Classification> {
    Seq::new(records.len(), |i: int| records[i].class())
}

/// The latencies of the records, in their order.
pub open spec fn latency_samples(records: Seq<Record>) -> Seq<u64> {
    Seq::new(records.len(), |i: int| records[i].latency() as u64)
}

/// How many outcomes fall under each head.
#[derive(Clone, Copy, Debug, PartialEq, Eq, Structural)]
pub struct Counts {
    pub successes: u64,
    pub timeouts: u64,
    pub status_errors: u64,
    pub connect_errors: u64,
    pub other_errors: u64,
    pub integrity_failures: u64,
}

/// The counts of the given classes.
pub open spec fn counts_of(classes: Seq<Classification>) -> Counts {
    Counts {
        successes: class_tally(classes, Tally::Successes) as u64,
        timeouts: class_tally(classes, Tally::Timeouts) as u64,
        status_errors: class_tally(classes, Tally::StatusErrors) as u64,
        connect_errors: class_tally(classes, Tally::ConnectErrors) as u64,
        other_errors: class_tally(classes, Tally::OtherErrors) as u64,
        integrity_failures: class_tally(classes, Tally::IntegrityFailures) as u64,
    }
}

/// One more class adds one to the head it is counted under, and nothing to
/// the others.
pub proof fn lemma_class_tally_push(classes: Seq<Classification>, class: Classification, head: Tally)
    ensures
        class_tally(classes.push(class), head) == class_tally(classes, head) + if counts_under(
            class,
            head,
        ) {
            1nat
        } else {
            0nat
        },
{
    assert(classes.push(class).drop_last() =~= classes);
}

/// Every class is counted under exactly one head, so that the counts of all
/// heads add up to the number of classes.
pub proof fn lemma_class_tallies_add_up(classes: Seq<Classification>)
    ensures
        class_tally(classes, Tally::Successes) + class_tally(classes, Tally::Timeouts)
            + class_tally(classes, Tally::StatusErrors) + class_tally(
            classes,
            Tally::ConnectErrors,
        ) + class_tally(classes, Tally::OtherErrors) + class_tally(
            classes,
            Tally::IntegrityFailures,
        ) == classes.len(),
    decreases classes.len(),
{
    if classes.len() > 0 {
        lemma_class_tallies_add_up(classes.drop_last());
    }
}

impl Counts {
    /// The number of outcomes that were counted.
    pub open spec fn sum(self) -> nat {
        (self.successes + self.timeouts + self.status_errors + self.connect_errors
            + self.other_errors + self.integrity_failures) as nat
    }

    /// The number of failed requests: those that timed out and those that
    /// ended in an error of any kind.
    pub open spec fn failed(self) -> nat {
        (self.timeouts + self.status_errors + self.connect_errors + self.other_errors) as nat
    }

    /// The count under one head.
    pub open spec fn under(self, head: Tally) -> u64 {
        match head {
            Tally::Successes => self.successes,
            Tally::Timeouts => self.timeouts,
            Tally::StatusErrors => self.status_errors,
            Tally::ConnectErrors => self.connect_errors,
            Tally::OtherErrors => self.other_errors,
            Tally::IntegrityFailures => self.integrity_failures,
        }
    }

    /// The counts of no outcome.
    pub fn new() -> (counts: Self)
        ensures
            counts == counts_of(Seq::<Classification>::empty()),
            counts.sum() == 0,
    {
        Counts {
            successes: 0,
            timeouts: 0,
            status_errors: 0,
            connect_errors: 0,
            other_errors: 0,
            integrity_failures: 0,
        }
    }

    /// Counts one more outcome.
    pub fn add(&mut self, class: Classification)
        requires
            old(self).sum() < u64::MAX,
        ensures
            final(self).sum() == old(self).sum() + 1,
            forall|head: Tally|
                final(self).under(head) == old(self).under(head) + if counts_under(class, head) {
                    1nat
                } else {
                    0nat
                },
    {
        match class {
            Classification::Success { verified: Some(false), .. } => {
                self.integrity_failures = self.integrity_failures + 1;
            },
            Classification::Success { .. } => {
                self.successes = self.successes + 1;
            },
            Classification::Timeout => {
                self.timeouts = self.timeouts + 1;
            },
            Classification::StatusError { .. } => {
                self.status_errors = self.status_errors + 1;
            },
            Classification::ConnectError => {
                self.connect_errors = self.connect_errors + 1;
            },
            Classification::OtherError => {
                self.other_errors = self.other_errors + 1;
            },
        }
    }

    /// The number of outcomes that were counted.
    pub fn total(&self) -> (count: u64)
        requires
            self.sum() <= u64::MAX,
        ensures
            count == self.sum(),
    {
        self.successes + self.timeouts + self.status_errors + self.connect_errors
            + self.other_errors + self.integrity_failures
    }

    /// The number of failed requests: see `failed`.
    pub fn errors(&self) -> (count: u64)
        requires
            self.sum() <= u64::MAX,
        ensures
            count == self.failed(),
    {
        self.timeouts + self.status_errors + self.connect_errors + self.other_errors
    }
}

/// The counts of some classes, with one more class counted, are the counts of
/// the classes with that class added.
pub proof fn lemma_counts_push(classes: Seq<Classification>, class: Classification, after: Counts)
    requires
        classes.len() < u64::MAX,
        forall|head: Tally|
            after.under(head) == counts_of(classes).under(head) + if counts_under(class, head) {
                1nat
            } else {
                0nat
            },
    ensures
        after == counts_of(classes.push(class)),
{
    lemma_class_tallies_add_up(classes);
    lemma_class_tallies_add_up(classes.push(class));
    lemma_class_tally_push(classes, class, Tally::Successes);
    lemma_class_tally_push(classes, class, Tally::Timeouts);
    lemma_class_tally_push(classes, class, Tally::StatusErrors);
    lemma_class_tally_push(classes, class, Tally::ConnectErrors);
    lemma_class_tally_push(classes, class, Tally::OtherErrors);
    lemma_class_tally_push(classes, class, Tally::IntegrityFailures);
    assert(after.under(Tally::Successes) == after.successes);
    assert(after.under(Tally::Timeouts) == after.timeouts);
    assert(after.under(Tally::StatusErrors) == after.status_errors);
    assert(after.under(Tally::ConnectErrors) == after.connect_errors);
    assert(after.under(Tally::OtherErrors) == after.other_errors);
    assert(after.under(Tally::IntegrityFailures) == after.integrity_failures);
}

/// The counts of classes add up to the number of classes.
pub proof fn lemma_counts_sum(classes: Seq<Classification>)
    requires
        classes.len() <= u64::MAX,
    ensures
        counts_of(classes).sum() == classes.len(),
        forall|head: Tally| counts_of(classes).under(head) == class_tally(classes, head),
{
    lemma_class_tallies_add_up(classes);
}

/// The log of a run.
pub struct BenchLog {
    records: Vec<Record>,
    counts: Counts,
}

impl View for BenchLog {
    type V = Seq<Record>;

    /// The records of the log, in the order in which they were added.
    closed spec fn view(&self) -> Seq<Record> {
        self.records@
    }
}

impl BenchLog {
    /// The counters agree with the records.
    pub closed spec fn wf(&self) -> bool {
        self.counts == counts_of(classes_of(self.records@))
    }

    /// An empty log with room for `num_records` records.
    pub fn new(num_records: usize) -> (log: Self)
        ensures
            log.wf(),
            log@ == Seq::<Record>::empty(),
    {
        let log = Self { records: Vec::with_capacity(num_records), counts: Counts::new() };
        assert(classes_of(log.records@) =~= Seq::<Classification>::empty());
        log
    }

    /// Adds a record to the log.
    pub fn add_record(&mut self, record: Record)
        requires
            old(self).wf(),
        ensures
            final(self).wf(),
            final(self)@ == old(self)@.push(record),
    {
        let ghost before = classes_of(self.records@);
        let class = record.classification();
        self.records.push(record);
        let count: usize = self.records.len();
        proof {
            lemma_counts_sum(before);
            assert(classes_of(self.records@) =~= before.push(class));
        }
        self.counts.add(class);
        proof {
            lemma_counts_push(before, class, self.counts);
        }
    }

    /// The number of records in the log.
    pub fn total(&self) -> (count: usize)
        ensures
            count == self@.len(),
    {
        self.records.len()
    }

    /// The number of failed requests in the log: those that timed out and
    /// those that ended in an error of any kind.
    pub fn errors(&self) -> (count: usize)
        requires
            self.wf(),
        ensures
            count == counts_of(classes_of(self@)).failed(),
    {
        let total: usize = self.records.len();
        proof {
            lemma_counts_sum(classes_of(self.records@));
        }
        self.counts.errors() as usize
    }

    /// How many records of the log fall under each head.
    pub fn counts(&self) -> (counts: Counts)
        requires
            self.wf(),
        ensures
            counts == counts_of(classes_of(self@)),
            counts.sum() == self@.len(),
    {
        let total: usize = self.records.len();
        proof {
            lemma_counts_sum(classes_of(self.records@));
        }
        self.counts
    }

    /// The records of the log, in the order in which they were added.
    pub fn records(&self) -> (records: &Vec<Record>)
        ensures
            records@ == self@,
    {
        &self.records
    }

    /// The percentiles `permilles`, in tenths of a percent, of the latencies of
    /// all records, in microseconds. Every percentile of an empty log is 0.
    pub fn latencies(&self, permilles: &[u32]) -> (values: Vec<u64>)
        ensures
            values.len() == permilles.len(),
            forall|i: int|
                0 <= i < permilles.len() ==> #[trigger] values[i] == percentile(
                    latency_samples(self@),
                    permilles[i] as nat,
                ),
    {
        let samples = collect_latencies(&self.records, 0);
        assert(self.records@.skip(0) =~= self.records@);
        percentiles(&samples, permilles)
    }
}

/// The latencies of the records from `from` on.
pub(crate) fn collect_latencies(records: &Vec<Record>, from: usize) -> (samples: Vec<u64>)
    requires
        from <= records.len(),
    ensures
        samples@ == latency_samples(records@.skip(from as int)),
{
    let mut samples: Vec<u64> = Vec::new();
    let mut i: usize = from;
    while i < records.len()
        invariant
            from <= i <= records.len(),
            samples.len() == i - from,
            forall|k: int| 0 <= k < samples.len() ==> samples[k] == records[from + k].latency(),
        decreases records.len() - i,
    {
        samples.push(records[i].duration());
        i += 1;
    }
    assert(samples@ =~= latency_samples(records@.skip(from as int)));
    samples
}

} // verus!
