use loadgen::generator::{ConstGen, ExpGen, MAX_RATE, NANOS_PER_SEC};
use loadgen::ramp::{num_warmup, plan_rates, RampGen, RATE_INC_PER_SEC};

fn drain_const(mut gen: ConstGen) -> Vec<u64> {
    let mut offsets = Vec::new();
    while let Some(offset) = gen.next() {
        offsets.push(offset);
    }
    assert_eq!(gen.next(), None);
    offsets
}

fn drain_ramp(mut gen: RampGen) -> Vec<u64> {
    let mut offsets = Vec::new();
    while let Some(offset) = gen.next() {
        offsets.push(offset);
    }
    assert_eq!(gen.next(), None);
    offsets
}

#[test]
fn one_second_at_ten_per_second_has_ten_offsets() {
    let gen = ConstGen::new(NANOS_PER_SEC, 10);
    assert_eq!(gen.expected_len(), 10);
    let offsets = drain_const(gen);
    assert_eq!(
        offsets,
        vec![
            0,
            100_000_000,
            200_000_000,
            300_000_000,
            400_000_000,
            500_000_000,
            600_000_000,
            700_000_000,
            800_000_000,
            900_000_000
        ]
    );
}

#[test]
fn constant_rate_rounds_offsets_down() {
    let offsets = drain_const(ConstGen::new(NANOS_PER_SEC, 3));
    assert_eq!(offsets, vec![0, 333_333_333, 666_666_666]);
}

#[test]
fn constant_rate_offsets_increase_and_stay_before_the_end() {
    for &(duration, rate) in &[
        (NANOS_PER_SEC, 1u64),
        (3 * NANOS_PER_SEC, 7),
        (NANOS_PER_SEC / 2, 1000),
        (12_345, MAX_RATE),
        (2 * NANOS_PER_SEC + 1, 999),
    ] {
        let gen = ConstGen::new(duration, rate);
        let expected = gen.expected_len();
        let offsets = drain_const(gen);
        assert_eq!(offsets.len(), expected);
        for pair in offsets.windows(2) {
            assert!(pair[0] < pair[1]);
        }
        for offset in &offsets {
            assert!(*offset < duration);
        }
        let product = duration as u128 * rate as u128 / NANOS_PER_SEC as u128;
        assert!(product <= expected as u128 && expected as u128 <= product + 1);
    }
}

#[test]
fn constant_rate_counts_a_started_interval() {
    // one and a half seconds at one per second: arrivals at 0 s and 1 s
    let gen = ConstGen::new(NANOS_PER_SEC + NANOS_PER_SEC / 2, 1);
    assert_eq!(gen.expected_len(), 2);
    assert_eq!(drain_const(gen), vec![0, NANOS_PER_SEC]);
}

#[test]
fn constant_rate_of_whole_seconds_has_duration_times_rate_offsets() {
    assert_eq!(ConstGen::new(5 * NANOS_PER_SEC, 200).expected_len(), 1000);
    assert_eq!(ConstGen::new(60 * NANOS_PER_SEC, 1).expected_len(), 60);
}

#[test]
fn empty_run_has_no_offsets() {
    let gen = ConstGen::new(0, 10);
    assert_eq!(gen.expected_len(), 0);
    assert_eq!(drain_const(gen), Vec::<u64>::new());
}

#[test]
fn constant_rate_at_the_highest_rate() {
    let gen = ConstGen::new(5, MAX_RATE);
    assert_eq!(drain_const(gen), vec![0, 1, 2, 3, 4]);
}

#[test]
fn constant_rate_settings_are_checked() {
    assert!(ConstGen::accepts(NANOS_PER_SEC, 1));
    assert!(ConstGen::accepts(u64::MAX, MAX_RATE));
    assert!(!ConstGen::accepts(NANOS_PER_SEC, 0));
    assert!(!ConstGen::accepts(NANOS_PER_SEC, MAX_RATE + 1));
}

#[test]
fn ramp_issues_each_seconds_rate_within_that_second() {
    let gen = RampGen::new(vec![2, 0, 3]);
    assert_eq!(gen.expected_len(), 5);
    assert_eq!(
        drain_ramp(gen),
        vec![0, 500_000_000, 2_000_000_000, 2_333_333_333, 2_666_666_666]
    );
}

#[test]
fn ramp_length_is_the_sum_of_the_rates() {
    let rates = vec![1000, 2000, 3000, 3500, 3500];
    let gen = RampGen::new(rates.clone());
    assert_eq!(gen.expected_len(), 13_000);
    let offsets = drain_ramp(gen);
    assert_eq!(offsets.len(), 13_000);
    // arrival k falls in the second that the cumulative rates give it
    let mut k = 0usize;
    for (second, rate) in rates.iter().enumerate() {
        for _ in 0..*rate {
            let start = second as u64 * NANOS_PER_SEC;
            assert!(start <= offsets[k] && offsets[k] < start + NANOS_PER_SEC);
            k += 1;
        }
    }
    for pair in offsets.windows(2) {
        assert!(pair[0] < pair[1]);
    }
}

#[test]
fn ramp_without_requests_is_empty() {
    assert_eq!(drain_ramp(RampGen::new(vec![])), Vec::<u64>::new());
    let gen = RampGen::new(vec![0, 0, 0]);
    assert_eq!(gen.expected_len(), 0);
    assert_eq!(drain_ramp(gen), Vec::<u64>::new());
}

#[test]
fn ramp_skips_idle_seconds() {
    assert_eq!(drain_ramp(RampGen::new(vec![0, 1, 0, 0, 1])), vec![NANOS_PER_SEC, 4 * NANOS_PER_SEC]);
}

#[test]
fn ramp_rates_are_checked() {
    assert!(RampGen::accepts(&vec![]));
    assert!(RampGen::accepts(&vec![1, 2, MAX_RATE]));
    assert!(!RampGen::accepts(&vec![1, MAX_RATE + 1]));
}

#[test]
fn plan_ramps_up_in_steps_and_then_holds_the_rate() {
    assert_eq!(RATE_INC_PER_SEC, 1000);
    assert_eq!(plan_rates(3500, 2, true), vec![1000, 2000, 3000, 3500, 3500]);
    assert_eq!(plan_rates(3500, 2, false), vec![3500, 3500]);
    assert_eq!(plan_rates(3000, 1, true), vec![1000, 2000, 3000]);
    assert_eq!(plan_rates(1000, 3, true), vec![1000, 1000, 1000]);
    assert_eq!(plan_rates(1001, 1, true), vec![1000, 1001]);
    assert_eq!(plan_rates(10, 1, true), vec![10]);
    assert_eq!(plan_rates(0, 2, true), vec![0, 0]);
    assert_eq!(plan_rates(5000, 0, true), vec![1000, 2000, 3000, 4000]);
}

#[test]
fn warmup_counts_the_requests_of_the_ramp() {
    assert_eq!(num_warmup(3500, true), 6000);
    assert_eq!(num_warmup(3500, false), 0);
    assert_eq!(num_warmup(3000, true), 3000);
    assert_eq!(num_warmup(1000, true), 0);
    assert_eq!(num_warmup(1001, true), 1000);
    assert_eq!(num_warmup(0, true), 0);
    assert_eq!(num_warmup(1, true), 0);
    assert_eq!(num_warmup(MAX_RATE, true), 500 * 999_999 * 1_000_000);
}

#[test]
fn warmup_is_the_sum_of_the_ramp_of_the_plan() {
    for rate in [1u64, 999, 1000, 1001, 2500, 10_000, 12_345] {
        let with = plan_rates(rate, 3, true);
        let without = plan_rates(rate, 3, false);
        let ramp: u64 = with[..with.len() - without.len()].iter().sum();
        assert_eq!(num_warmup(rate, true), ramp);
        let all: u64 = with.iter().sum();
        assert_eq!(all, ramp + 3 * rate);
        assert_eq!(RampGen::new(with).expected_len() as u64, all);
    }
}

#[test]
fn random_gaps_add_up_until_the_end_of_the_run() {
    let mut gen = ExpGen::new(1000);
    assert_eq!(gen.push_gap(100), Some(100));
    assert_eq!(gen.push_gap(0), Some(100));
    assert_eq!(gen.push_gap(899), Some(999));
    assert_eq!(gen.push_gap(1), None);
    // the schedule has ended: a later gap brings nothing
    assert_eq!(gen.push_gap(0), None);
}

#[test]
fn random_gaps_that_overflow_end_the_schedule() {
    let mut gen = ExpGen::new(u64::MAX);
    assert_eq!(gen.push_gap(u64::MAX - 1), Some(u64::MAX - 1));
    assert_eq!(gen.push_gap(5), None);
    assert_eq!(gen.push_gap(0), None);
}

#[test]
fn random_gaps_in_an_empty_run() {
    let mut gen = ExpGen::new(0);
    assert_eq!(gen.push_gap(0), None);
}
