use loadgen::outcome::{classify, Classification, Record, Reply};
use loadgen::workload::RequestType;

fn answered(status: u16, payload: &[u8]) -> Reply {
    Reply::Answered { status, payload: payload.to_vec() }
}

#[test]
fn a_reply_with_the_checksum_is_a_verified_success() {
    let expected = RequestType::Matmul.checksum(2);
    let reply = answered(200, &[0, 0, 0, 0, 0, 0, 0, 25]);
    let class = classify(&reply, Some(expected));
    assert_eq!(class, Classification::Success { status: 200, verified: Some(true) });
    assert!(class.success());
    assert!(!class.integrity_failure());
    assert!(!class.error());
    assert!(!class.timeout());
    assert_eq!(class.status(), 200);
}

#[test]
fn a_reply_with_another_checksum_is_an_integrity_failure() {
    let expected = RequestType::Matmul.checksum(2);
    let reply = answered(200, &[0, 0, 0, 0, 0, 0, 0, 26]);
    let class = classify(&reply, Some(expected));
    assert_eq!(class, Classification::Success { status: 200, verified: Some(false) });
    assert!(class.integrity_failure());
    assert!(!class.success());
    assert!(!class.error());
    assert!(!class.timeout());
}

#[test]
fn a_little_endian_checksum_is_an_integrity_failure() {
    let reply = answered(200, &[25, 0, 0, 0, 0, 0, 0, 0]);
    assert!(classify(&reply, Some(25)).integrity_failure());
}

#[test]
fn a_body_of_the_wrong_length_is_an_integrity_failure() {
    assert!(classify(&answered(200, &[]), Some(0)).integrity_failure());
    assert!(classify(&answered(200, &[0, 0, 0, 25]), Some(25)).integrity_failure());
    assert!(classify(&answered(200, &[0, 0, 0, 0, 0, 0, 0, 0, 25]), Some(25)).integrity_failure());
}

#[test]
fn without_a_checksum_nothing_is_verified() {
    let class = classify(&answered(204, &[1, 2, 3]), None);
    assert_eq!(class, Classification::Success { status: 204, verified: None });
    assert!(class.success());
    assert!(!class.integrity_failure());
}

#[test]
fn error_statuses_are_status_errors() {
    for status in [400u16, 404, 499, 500, 503, 599] {
        let class = classify(&answered(status, &[0, 0, 0, 0, 0, 0, 0, 25]), Some(25));
        assert_eq!(class, Classification::StatusError { status });
        assert!(class.error());
        assert!(!class.success());
        assert!(!class.integrity_failure());
        assert_eq!(class.status(), status);
    }
}

#[test]
fn other_statuses_are_successes() {
    for status in [100u16, 200, 201, 302, 399, 600] {
        let class = classify(&answered(status, &[]), None);
        assert_eq!(class, Classification::Success { status, verified: None });
    }
}

#[test]
fn transport_failures_are_told_apart() {
    assert_eq!(classify(&Reply::TimedOut, Some(1)), Classification::Timeout);
    assert_eq!(classify(&Reply::ConnectFailed, Some(1)), Classification::ConnectError);
    assert_eq!(classify(&Reply::Failed, None), Classification::OtherError);
    assert!(Classification::Timeout.timeout());
    assert!(!Classification::Timeout.error());
    assert!(Classification::ConnectError.error());
    assert!(Classification::OtherError.error());
    assert_eq!(Classification::Timeout.status(), 0);
    assert_eq!(Classification::ConnectError.status(), 0);
    assert_eq!(Classification::OtherError.status(), 0);
}

#[test]
fn every_class_falls_under_one_head() {
    let classes = [
        Classification::Success { status: 200, verified: None },
        Classification::Success { status: 200, verified: Some(true) },
        Classification::Success { status: 200, verified: Some(false) },
        Classification::Timeout,
        Classification::StatusError { status: 500 },
        Classification::ConnectError,
        Classification::OtherError,
    ];
    for class in classes {
        let heads = [class.success(), class.integrity_failure(), class.timeout(), class.error()];
        assert_eq!(heads.iter().filter(|head| **head).count(), 1);
    }
}

#[test]
fn a_record_knows_its_times() {
    let class = Classification::Success { status: 200, verified: None };
    let record = Record::new(1_000_000, 1_002_500, String::from("http://a:8080/hot/io"), class);
    assert_eq!(record.start_time(), 1_000_000);
    assert_eq!(record.duration(), 2500);
    assert_eq!(record.url(), "http://a:8080/hot/io");
    assert_eq!(record.classification(), class);
    let instant = Record::new(7, 7, String::new(), Classification::Timeout);
    assert_eq!(instant.duration(), 0);
}
