use loadgen::trace::{micros_to_nanos, parse_trace, replay_trace, TraceError, TraceFault};

fn fault(line: usize, fault: TraceFault) -> Result<Vec<u64>, TraceError> {
    Err(TraceError { line, fault })
}

#[test]
fn a_trace_holds_one_offset_per_line() {
    assert_eq!(parse_trace(b"0\n1000\n5000\n"), Ok(vec![0, 1000, 5000]));
    assert_eq!(parse_trace(b"0\n1000\n5000"), Ok(vec![0, 1000, 5000]));
    assert_eq!(parse_trace(b"42"), Ok(vec![42]));
    assert_eq!(parse_trace(b"42\n"), Ok(vec![42]));
    assert_eq!(parse_trace(b""), Ok(vec![]));
}

#[test]
fn a_trace_is_taken_as_it_stands() {
    assert_eq!(parse_trace(b"7\n7\n7\n"), Ok(vec![7, 7, 7]));
    assert_eq!(parse_trace(b"007\n0010\n"), Ok(vec![7, 10]));
    assert_eq!(
        parse_trace(b"18446744073709551615\n18446744073709551615"),
        Ok(vec![u64::MAX, u64::MAX])
    );
}

#[test]
fn lines_that_are_no_numbers_are_faults() {
    assert_eq!(parse_trace(b"\n"), fault(0, TraceFault::NotANumber));
    assert_eq!(parse_trace(b"1\n\n2\n"), fault(1, TraceFault::NotANumber));
    assert_eq!(parse_trace(b"1\n2\n\n"), fault(2, TraceFault::NotANumber));
    assert_eq!(parse_trace(b"1\n 2\n"), fault(1, TraceFault::NotANumber));
    assert_eq!(parse_trace(b"1\r\n2\r\n"), fault(0, TraceFault::NotANumber));
    assert_eq!(parse_trace(b"-1\n"), fault(0, TraceFault::NotANumber));
    assert_eq!(parse_trace(b"1\n2\n3x"), fault(2, TraceFault::NotANumber));
    assert_eq!(parse_trace(b"1.5"), fault(0, TraceFault::NotANumber));
    assert_eq!(parse_trace(b"0\n/\n"), fault(1, TraceFault::NotANumber));
    assert_eq!(parse_trace(b"0\n:\n"), fault(1, TraceFault::NotANumber));
}

#[test]
fn numbers_above_64_bits_are_faults() {
    assert_eq!(parse_trace(b"18446744073709551616\n"), fault(0, TraceFault::TooLarge));
    assert_eq!(parse_trace(b"1\n99999999999999999999999999\n3"), fault(1, TraceFault::TooLarge));
    // a stray byte after too many digits is still no number
    assert_eq!(parse_trace(b"99999999999999999999999999x"), fault(0, TraceFault::NotANumber));
}

#[test]
fn offsets_that_go_back_are_faults() {
    assert_eq!(parse_trace(b"5\n4\n"), fault(1, TraceFault::NotAscending));
    assert_eq!(parse_trace(b"0\n1000\n5000\n4999"), fault(3, TraceFault::NotAscending));
}

#[test]
fn the_first_fault_is_reported() {
    assert_eq!(parse_trace(b"5\n4\nx\n"), fault(1, TraceFault::NotAscending));
    assert_eq!(parse_trace(b"x\n5\n4\n"), fault(0, TraceFault::NotANumber));
}

#[test]
fn replaying_twice_shifts_the_second_round_by_the_last_offset() {
    let offsets = parse_trace(b"0\n1000\n5000\n").unwrap();
    let replayed = replay_trace(&offsets, 2).unwrap();
    assert_eq!(replayed.len(), 6);
    assert_eq!(replayed, vec![0, 1000, 5000, 5000, 6000, 10000]);
    for i in 0..3 {
        assert_eq!(replayed[3 + i], offsets[i] + 5000);
    }
}

#[test]
fn replaying_once_is_the_trace() {
    assert_eq!(replay_trace(&vec![0, 1000, 5000], 1), Some(vec![0, 1000, 5000]));
    assert_eq!(replay_trace(&vec![3], 4), Some(vec![3, 6, 9, 12]));
}

#[test]
fn replaying_nothing_is_nothing() {
    assert_eq!(replay_trace(&vec![0, 1000, 5000], 0), Some(vec![]));
    assert_eq!(replay_trace(&vec![], 5), Some(vec![]));
    assert_eq!(replay_trace(&vec![], u64::MAX), Some(vec![]));
}

#[test]
fn a_replayed_trace_stays_in_order() {
    let replayed = replay_trace(&vec![10, 20, 20, 45], 5).unwrap();
    assert_eq!(replayed.len(), 20);
    for pair in replayed.windows(2) {
        assert!(pair[0] <= pair[1]);
    }
    assert_eq!(replayed[19], 45 + 4 * 45);
}

#[test]
fn a_replay_that_does_not_fit_is_refused() {
    assert_eq!(replay_trace(&vec![0, u64::MAX / 2 + 1], 2), None);
    assert_eq!(replay_trace(&vec![0, u64::MAX / 2], 2), Some(vec![0, u64::MAX / 2, u64::MAX / 2, u64::MAX - 1]));
    assert_eq!(replay_trace(&vec![0, 0], u64::MAX), None);
}

#[test]
fn trace_offsets_become_nanoseconds() {
    assert_eq!(micros_to_nanos(&vec![0, 1000, 5000]), Some(vec![0, 1_000_000, 5_000_000]));
    assert_eq!(micros_to_nanos(&vec![]), Some(vec![]));
    assert_eq!(micros_to_nanos(&vec![u64::MAX / 1000]), Some(vec![u64::MAX / 1000 * 1000]));
    assert_eq!(micros_to_nanos(&vec![1, u64::MAX / 1000 + 1]), None);
}
