use loadgen::aggregate::Aggregator;
use loadgen::dispatch::{Dispatcher, Step, DEFAULT_SLACK, SPIN_WINDOW};
use loadgen::generator::{ConstGen, NANOS_PER_SEC};
use loadgen::outcome::{Classification, Record};

#[test]
fn the_defaults_are_a_tenth_of_a_second_and_a_millisecond() {
    assert_eq!(DEFAULT_SLACK, 100_000_000);
    assert_eq!(SPIN_WINDOW, 1_000_000);
}

#[test]
fn an_early_dispatcher_sleeps_then_spins_then_ticks() {
    let mut dispatcher = Dispatcher::new(DEFAULT_SLACK);
    let offset = NANOS_PER_SEC;
    assert_eq!(dispatcher.step(offset, 0), Step::Sleep { nanos: 999_000_000 });
    assert!(dispatcher.waiting);
    assert_eq!(dispatcher.step(offset, 998_999_999), Step::Sleep { nanos: 1 });
    assert_eq!(dispatcher.step(offset, 999_000_000), Step::Spin);
    assert_eq!(dispatcher.step(offset, 999_999_999), Step::Spin);
    assert_eq!(dispatcher.step(offset, NANOS_PER_SEC), Step::Tick);
    assert!(!dispatcher.waiting);
    assert!(!dispatcher.overloaded);
}

#[test]
fn a_dispatcher_within_the_slack_ticks_at_once() {
    let mut dispatcher = Dispatcher::new(DEFAULT_SLACK);
    assert_eq!(dispatcher.step(0, 0), Step::Tick);
    assert_eq!(dispatcher.step(1000, 1000 + DEFAULT_SLACK), Step::Tick);
    assert!(!dispatcher.overloaded);
}

#[test]
fn a_dispatcher_beyond_the_slack_gives_up() {
    let mut dispatcher = Dispatcher::new(DEFAULT_SLACK);
    assert_eq!(
        dispatcher.step(1000, 1001 + DEFAULT_SLACK),
        Step::Abort { behind: DEFAULT_SLACK + 1 }
    );
    assert!(dispatcher.overloaded);
    // and stays given up, also for offsets that are not late
    assert_eq!(dispatcher.step(u64::MAX, 0), Step::Abort { behind: 0 });
    assert_eq!(dispatcher.step(0, 0), Step::Abort { behind: 0 });
    assert!(dispatcher.overloaded);
}

#[test]
fn oversleeping_an_offset_in_time_is_no_overload() {
    let mut dispatcher = Dispatcher::new(10);
    assert_eq!(dispatcher.step(5_000_000, 0), Step::Sleep { nanos: 4_000_000 });
    // the sleep took far too long, but the offset was taken up in time
    assert_eq!(dispatcher.step(5_000_000, 9_000_000), Step::Tick);
    // the next offset is found late
    assert_eq!(dispatcher.step(6_000_000, 9_000_000), Step::Abort { behind: 3_000_000 });
}

#[test]
fn zero_slack_allows_no_lateness() {
    let mut dispatcher = Dispatcher::new(0);
    assert_eq!(dispatcher.step(7, 7), Step::Tick);
    assert_eq!(dispatcher.step(7, 8), Step::Abort { behind: 1 });
}

#[test]
fn an_unbounded_run_ticks_until_its_time_is_up() {
    assert!(Dispatcher::unbounded_tick(0, 1));
    assert!(Dispatcher::unbounded_tick(NANOS_PER_SEC - 1, NANOS_PER_SEC));
    assert!(!Dispatcher::unbounded_tick(NANOS_PER_SEC, NANOS_PER_SEC));
    assert!(!Dispatcher::unbounded_tick(0, 0));
}

#[test]
fn a_run_that_falls_behind_stops_early_and_fails() {
    let mut schedule = ConstGen::new(NANOS_PER_SEC, 10);
    let expected = schedule.expected_len() as u64;
    let mut dispatcher = Dispatcher::new(DEFAULT_SLACK);
    let mut agg = Aggregator::new(0, 0);
    // the clock of this run: the fourth request makes it stall for 250 ms
    let mut elapsed = 0u64;
    let mut overloaded = false;
    'run: while let Some(offset) = schedule.next() {
        loop {
            match dispatcher.step(offset, elapsed) {
                Step::Tick => break,
                Step::Sleep { nanos } => elapsed += nanos,
                Step::Spin => elapsed += 1000,
                Step::Abort { behind } => {
                    assert!(behind > DEFAULT_SLACK);
                    overloaded = true;
                    break 'run;
                }
            }
        }
        let class = Classification::Success { status: 200, verified: None };
        agg.observe(Record::new(elapsed / 1000, elapsed / 1000 + 1, String::new(), class));
        if agg.num_received() == 4 {
            elapsed += 250_000_000;
        }
    }
    assert!(overloaded);
    assert!(dispatcher.overloaded);
    assert_eq!(agg.num_received(), 4);
    assert!(agg.num_received() < expected);
    assert!(agg.finish(overloaded, expected, 1).failed);
}

#[test]
fn a_run_that_keeps_up_issues_every_request() {
    let mut schedule = ConstGen::new(NANOS_PER_SEC, 10);
    let mut dispatcher = Dispatcher::new(DEFAULT_SLACK);
    let mut elapsed = 0u64;
    let mut ticks = Vec::new();
    while let Some(offset) = schedule.next() {
        loop {
            match dispatcher.step(offset, elapsed) {
                Step::Tick => break,
                Step::Sleep { nanos } => elapsed += nanos,
                Step::Spin => elapsed += 250_000,
                Step::Abort { .. } => panic!("the run kept up"),
            }
        }
        assert!(elapsed >= offset);
        ticks.push(elapsed);
    }
    assert_eq!(ticks.len(), 10);
    assert_eq!(ticks[9], 900_000_000);
}
