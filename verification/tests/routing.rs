use loadgen::routing::{HotGenerator, HOT_SCALE};

fn count_hot(gen: &mut HotGenerator, requests: u64) -> u64 {
    let mut hot = 0;
    for _ in 0..requests {
        if gen.next() {
            hot += 1;
        }
    }
    hot
}

#[test]
fn a_quarter_is_every_fourth_request() {
    let mut gen = HotGenerator::with_counter(HOT_SCALE / 4, 0);
    let routed: Vec<bool> = (0..8).map(|_| gen.next()).collect();
    assert_eq!(routed, vec![false, false, false, true, false, false, false, true]);
}

#[test]
fn the_counter_carries_over() {
    let mut gen = HotGenerator::with_counter(600_000, 500_000);
    // 1.1 -> hot, 0.1 left; 0.7; 1.3 -> hot, 0.3 left; 0.9; 1.5 -> hot
    let routed: Vec<bool> = (0..5).map(|_| gen.next()).collect();
    assert_eq!(routed, vec![true, false, true, false, true]);
}

#[test]
fn a_full_share_routes_every_request_hot() {
    let mut gen = HotGenerator::new(HOT_SCALE);
    assert_eq!(count_hot(&mut gen, 1000), 1000);
    let mut gen = HotGenerator::with_counter(HOT_SCALE, HOT_SCALE - 1);
    assert_eq!(count_hot(&mut gen, 10), 10);
}

#[test]
fn no_share_routes_no_request_hot() {
    let mut gen = HotGenerator::new(0);
    assert_eq!(count_hot(&mut gen, 1000), 0);
}

#[test]
fn hot_share_is_kept_to_within_one_request() {
    for share in [1u64, 10, 333_333, 500_000, 999_999] {
        for requests in [1u64, 7, 1000, 123_457] {
            let mut gen = HotGenerator::new(share);
            let hot = count_hot(&mut gen, requests);
            let ideal = requests as i128 * share as i128;
            let got = hot as i128 * HOT_SCALE as i128;
            assert!((got - ideal).abs() < HOT_SCALE as i128);
        }
    }
}

#[test]
fn hot_count_is_the_whole_part_of_what_was_gathered() {
    let mut gen = HotGenerator::with_counter(333_333, 123_456);
    // (123456 + 1000 * 333333) / 1000000 = 333.456456
    assert_eq!(count_hot(&mut gen, 1000), 333);
}

#[test]
fn ten_requests_at_full_share_are_all_hot() {
    let mut schedule = loadgen::generator::ConstGen::new(loadgen::generator::NANOS_PER_SEC, 10);
    let mut router = HotGenerator::new(HOT_SCALE);
    let mut issued = 0;
    while let Some(_) = schedule.next() {
        assert!(router.next());
        issued += 1;
    }
    assert_eq!(issued, 10);
}
