use loadgen::aggregate::{Aggregator, WindowReport, REPORT_PERMILLES};
use loadgen::outcome::{Classification, Record};
use loadgen::running::{RunningStats, StreamAggregator};
use loadgen::percentile::{percentiles, rank_of, select_percentile, sort_samples, FULL_PERMILLE};
use loadgen::stats::{BenchLog, Counts};

const OK: Classification = Classification::Success { status: 200, verified: None };

fn record(latency: u64, class: Classification) -> Record {
    Record::new(1000, 1000 + latency, String::from("http://t:8080/cold/io"), class)
}

#[test]
fn sorting_orders_the_samples() {
    assert_eq!(sort_samples(&vec![]), Vec::<u64>::new());
    assert_eq!(sort_samples(&vec![7]), vec![7]);
    assert_eq!(sort_samples(&vec![5, 1, 4, 2, 3]), vec![1, 2, 3, 4, 5]);
    assert_eq!(sort_samples(&vec![2, 2, 1, 1, 3, 0, u64::MAX]), vec![0, 1, 1, 2, 2, 3, u64::MAX]);
}

#[test]
fn sorting_agrees_with_the_standard_sort() {
    let mut state = 12345u64;
    let mut samples = Vec::new();
    for _ in 0..1000 {
        state = state.wrapping_mul(6364136223846793005).wrapping_add(1442695040888963407);
        samples.push(state >> 40);
    }
    let mut expected = samples.clone();
    expected.sort();
    assert_eq!(sort_samples(&samples), expected);
}

#[test]
fn rank_follows_the_formula() {
    // (count * percent - 1) / 100, rounded down
    assert_eq!(rank_of(5, 500), 2);
    assert_eq!(rank_of(5, 900), 4);
    assert_eq!(rank_of(5, 1000), 4);
    assert_eq!(rank_of(100, 500), 49);
    assert_eq!(rank_of(100, 990), 98);
    assert_eq!(rank_of(100, 999), 99);
    assert_eq!(rank_of(1000, 999), 998);
    assert_eq!(rank_of(1000, 950), 949);
    assert_eq!(rank_of(200, 505), 100);
}

#[test]
fn rank_is_held_within_the_samples() {
    assert_eq!(rank_of(1, 0), 0);
    assert_eq!(rank_of(1, 5), 0);
    assert_eq!(rank_of(1, 1000), 0);
    assert_eq!(rank_of(3, 0), 0);
    assert_eq!(rank_of(3, 2000), 2);
    assert_eq!(rank_of(3, u32::MAX), 2);
    assert_eq!(rank_of(usize::MAX, u32::MAX), usize::MAX - 1);
}

#[test]
fn the_hundredth_percentile_is_the_maximum() {
    for samples in [vec![3u64], vec![5, 1, 4, 2, 3], vec![9, 9, 9], vec![0, u64::MAX, 17], vec![1, 2]] {
        let max = *samples.iter().max().unwrap();
        assert_eq!(percentiles(&samples, &[FULL_PERMILLE]), vec![max]);
    }
}

#[test]
fn percentiles_select_from_the_sorted_samples() {
    let samples = vec![50, 10, 40, 20, 30];
    assert_eq!(percentiles(&samples, &[0, 500, 900, 1000]), vec![10, 30, 50, 50]);
    let hundred: Vec<u64> = (1..=100).rev().collect();
    assert_eq!(percentiles(&hundred, &REPORT_PERMILLES), vec![50, 90, 95, 99, 100, 100]);
}

#[test]
fn percentiles_of_nothing_are_zero() {
    assert_eq!(percentiles(&vec![], &[500, 1000]), vec![0, 0]);
    assert_eq!(percentiles(&vec![1, 2, 3], &[]), Vec::<u64>::new());
    assert_eq!(select_percentile(&vec![], 500), 0);
    assert_eq!(select_percentile(&vec![1, 2, 3, 4], 500), 2);
}

#[test]
fn log_counts_failures() {
    let mut log = BenchLog::new(8);
    assert_eq!(log.total(), 0);
    assert_eq!(log.errors(), 0);
    assert_eq!(log.counts(), Counts::new());
    log.add_record(record(10, OK));
    log.add_record(record(20, Classification::Timeout));
    log.add_record(record(30, Classification::StatusError { status: 503 }));
    log.add_record(record(40, Classification::ConnectError));
    log.add_record(record(50, Classification::OtherError));
    log.add_record(record(60, Classification::Success { status: 200, verified: Some(false) }));
    log.add_record(record(70, Classification::Success { status: 200, verified: Some(true) }));
    log.add_record(record(80, Classification::StatusError { status: 404 }));
    assert_eq!(log.total(), 8);
    assert_eq!(log.errors(), 5);
    assert_eq!(
        log.counts(),
        Counts {
            successes: 2,
            timeouts: 1,
            status_errors: 2,
            connect_errors: 1,
            other_errors: 1,
            integrity_failures: 1
        }
    );
    assert_eq!(log.counts().total(), 8);
    assert_eq!(log.counts().errors(), 5);
    assert_eq!(log.records().len(), 8);
    assert_eq!(log.records()[2].duration(), 30);
}

#[test]
fn counts_add_one_under_one_head() {
    let mut counts = Counts::new();
    assert_eq!(counts.total(), 0);
    counts.add(Classification::Timeout);
    counts.add(Classification::Timeout);
    counts.add(OK);
    counts.add(Classification::Success { status: 200, verified: Some(false) });
    assert_eq!(counts.timeouts, 2);
    assert_eq!(counts.successes, 1);
    assert_eq!(counts.integrity_failures, 1);
    assert_eq!(counts.total(), 4);
    assert_eq!(counts.errors(), 2);
}

#[test]
fn log_latencies_are_percentiles_of_all_records() {
    let mut log = BenchLog::new(0);
    assert_eq!(log.latencies(&REPORT_PERMILLES), vec![0, 0, 0, 0, 0, 0]);
    for latency in [300, 100, 200, 500, 400] {
        log.add_record(record(latency, OK));
    }
    assert_eq!(log.latencies(&[500, 900, 1000]), vec![300, 500, 500]);
    assert_eq!(log.latencies(&[1000])[0], 500);
}

#[test]
fn warmup_outcomes_are_received_but_not_logged() {
    let mut agg = Aggregator::new(3, 16);
    for latency in 1..=5 {
        agg.observe(record(latency, OK));
    }
    assert_eq!(agg.num_received(), 5);
    assert_eq!(agg.log().total(), 2);
    // the outcomes that count are the last two to arrive
    assert_eq!(agg.log().records()[0].duration(), 4);
    assert_eq!(agg.log().records()[1].duration(), 5);
}

#[test]
fn a_run_shorter_than_its_warmup_logs_nothing() {
    let mut agg = Aggregator::new(3, 16);
    agg.observe(record(1, OK));
    agg.observe(record(2, Classification::Timeout));
    assert_eq!(agg.num_received(), 2);
    assert_eq!(agg.log().total(), 0);
    assert_eq!(agg.log().errors(), 0);
    assert_eq!(agg.log().counts(), Counts::new());
    agg.observe(record(3, OK));
    assert_eq!(agg.log().total(), 0);
    agg.observe(record(4, OK));
    assert_eq!(agg.log().total(), 1);
}

#[test]
fn logged_outcomes_are_received_less_warmup() {
    for warmup in 0..6u64 {
        for received in 0..10u64 {
            let mut agg = Aggregator::new(warmup, 0);
            for latency in 0..received {
                agg.observe(record(latency, OK));
            }
            assert_eq!(agg.num_received(), received);
            assert_eq!(agg.log().total() as u64, received.saturating_sub(warmup));
        }
    }
}

#[test]
fn without_warmup_everything_is_logged() {
    let mut agg = Aggregator::new(0, 4);
    agg.observe(record(9, Classification::Timeout));
    assert_eq!(agg.log().total(), 1);
    assert_eq!(agg.log().counts().timeouts, 1);
}

fn counts(successes: u64, timeouts: u64, status_errors: u64, connect_errors: u64) -> Counts {
    Counts { successes, timeouts, status_errors, connect_errors, other_errors: 0, integrity_failures: 0 }
}

#[test]
fn rolling_reports_cover_what_came_since_the_last_one() {
    let mut agg = Aggregator::new(1, 0);
    agg.observe(record(999, Classification::Timeout));
    agg.observe(record(10, OK));
    agg.observe(record(30, Classification::Timeout));
    agg.observe(record(20, Classification::StatusError { status: 500 }));
    let first = agg.roll(1000);
    assert_eq!(first, WindowReport { counts: counts(1, 1, 1, 0), latency: 30 });
    let empty = agg.roll(500);
    assert_eq!(empty, WindowReport { counts: Counts::new(), latency: 0 });
    agg.observe(record(5, OK));
    agg.observe(record(7, Classification::ConnectError));
    let second = agg.roll(500);
    assert_eq!(second, WindowReport { counts: counts(1, 0, 0, 1), latency: 5 });
    // rolling reports take nothing from the log
    assert_eq!(agg.log().total(), 5);
    assert_eq!(agg.num_received(), 6);
}

fn mixed(latency: u64) -> Classification {
    if latency % 10 == 0 {
        Classification::Timeout
    } else if latency % 25 == 1 {
        Classification::StatusError { status: 500 }
    } else if latency == 77 {
        Classification::Success { status: 200, verified: Some(false) }
    } else if latency == 13 {
        Classification::OtherError
    } else {
        OK
    }
}

const MIXED: Counts = Counts {
    successes: 84,
    timeouts: 10,
    status_errors: 4,
    connect_errors: 0,
    other_errors: 1,
    integrity_failures: 1,
};

#[test]
fn summary_counts_and_percentiles() {
    let mut agg = Aggregator::new(2, 0);
    agg.observe(record(1, OK));
    agg.observe(record(2, OK));
    for latency in 1..=100 {
        agg.observe(record(latency, mixed(latency)));
    }
    let result = agg.finish(false, 102, 10);
    assert_eq!(result.received, 102);
    assert_eq!(result.counts, MIXED);
    assert_eq!(result.counts.total(), 100);
    assert_eq!(result.latencies, vec![50, 90, 95, 99, 100, 100]);
    // 84 successes in 10 seconds
    assert_eq!(result.goodput_milli, Some(8400));
    assert!(!result.failed);
    assert_eq!(agg.finish(false, 102, 0).goodput_milli, None);
}

#[test]
fn a_run_fails_when_outcomes_are_missing_or_the_dispatcher_gave_up() {
    let mut agg = Aggregator::new(0, 0);
    agg.observe(record(1, OK));
    agg.observe(record(2, OK));
    assert!(!agg.finish(false, 2, 1).failed);
    assert!(!agg.finish(false, 1, 1).failed);
    assert!(agg.finish(false, 3, 1).failed);
    assert!(agg.finish(true, 2, 1).failed);
    assert!(agg.finish(true, 0, 1).failed);
}

#[test]
fn running_statistics_count_and_approximate() {
    let mut stats = RunningStats::new();
    assert_eq!(stats.total(), 0);
    assert_eq!(stats.quantile(500), 0);
    for latency in 1..=100 {
        stats.observe(mixed(latency), latency * 1000);
    }
    assert_eq!(stats.total(), 100);
    assert_eq!(stats.counts(), MIXED);
    // the exact percentiles are 50000 and 100000; the answers are the tops of their buckets
    assert_eq!(stats.quantile(500), 50175);
    assert_eq!(stats.quantile(1000), 100351);
    stats.reset();
    assert_eq!(stats.total(), 0);
    assert_eq!(stats.counts(), Counts::new());
    assert_eq!(stats.quantile(1000), 0);
}

#[test]
fn streaming_drops_the_warmup_too() {
    let mut agg = StreamAggregator::new(2);
    agg.observe(Classification::Timeout, 1_000_000);
    agg.observe(Classification::Timeout, 1_000_000);
    assert_eq!(agg.num_received(), 2);
    assert_eq!(agg.stats().total(), 0);
    for latency in 1..=100 {
        agg.observe(mixed(latency), latency);
    }
    assert_eq!(agg.num_received(), 102);
    assert_eq!(agg.stats().total(), 100);
    let result = agg.finish(false, 102, 10);
    assert_eq!(result.received, 102);
    assert_eq!(result.counts, MIXED);
    assert_eq!(result.latencies, vec![50, 90, 95, 99, 100, 100]);
    assert_eq!(result.goodput_milli, Some(8400));
    assert!(!result.failed);
    assert!(agg.finish(false, 103, 10).failed);
    assert!(agg.finish(true, 102, 10).failed);
}

#[test]
fn streaming_keeps_received_less_warmup() {
    for warmup in 0..5u64 {
        for received in 0..8u64 {
            let mut agg = StreamAggregator::new(warmup);
            for latency in 0..received {
                agg.observe(OK, latency);
            }
            assert_eq!(agg.num_received(), received);
            assert_eq!(agg.stats().total(), received.saturating_sub(warmup));
        }
    }
}
