use loadgen::wire::decode_u64_be;
use loadgen::workload::{matmul_by_transpose, RequestType, IO_CHECKSUM, MAX_MATMUL_SIZE};

#[test]
fn url_names_host_port_temperature_and_kind() {
    assert_eq!(RequestType::Matmul.url("localhost", true), "http://localhost:8080/hot/matmul");
    assert_eq!(RequestType::Compute.url("10.0.0.7", false), "http://10.0.0.7:8080/cold/compute");
    assert_eq!(RequestType::Io.url("target", false), "http://target:8080/cold/io");
    assert_eq!(RequestType::Io.url("", true), "http://:8080/hot/io");
}

#[test]
fn matmul_body_is_two_big_endian_dimensions() {
    let body = RequestType::Matmul.body(128, "ignored");
    assert_eq!(body, vec![0, 0, 0, 0, 0, 0, 0, 128, 0, 0, 0, 0, 0, 0, 0, 128]);
    let body = RequestType::Matmul.body(0x0102030405060708, "ignored");
    assert_eq!(body, vec![1, 2, 3, 4, 5, 6, 7, 8, 1, 2, 3, 4, 5, 6, 7, 8]);
    assert_eq!(RequestType::Matmul.body(u64::MAX, "").len(), 16);
}

#[test]
fn compute_body_names_the_storage_addresses() {
    let body = RequestType::Compute.body(5, "store");
    assert_eq!(body, b"http://store:8000/iterations/5::http://store:8000/post".to_vec());
    let body = RequestType::Compute.body(0, "10.1.2.3");
    assert_eq!(body, b"http://10.1.2.3:8000/iterations/0::http://10.1.2.3:8000/post".to_vec());
}

#[test]
fn io_body_names_the_storage_addresses() {
    let body = RequestType::Io.body(1048576, "store");
    assert_eq!(body, b"http://store:8000/bytes/1048576::http://store:8000/post".to_vec());
    let body = RequestType::Io.body(u64::MAX, "s");
    assert_eq!(body, b"http://s:8000/bytes/18446744073709551615::http://s:8000/post".to_vec());
}

#[test]
fn body_keeps_non_ascii_hosts() {
    let body = RequestType::Io.body(7, "h\u{f6}st");
    assert_eq!(body, "http://h\u{f6}st:8000/bytes/7::http://h\u{f6}st:8000/post".as_bytes().to_vec());
}

#[test]
fn checksum_of_small_matrices() {
    assert_eq!(RequestType::Matmul.checksum(1), 1);
    // [[1, 2], [3, 4]] times its transpose ends in 3 * 3 + 4 * 4.
    assert_eq!(RequestType::Matmul.checksum(2), 25);
    // 7 * 7 + 8 * 8 + 9 * 9
    assert_eq!(RequestType::Matmul.checksum(3), 194);
    assert_eq!(RequestType::Matmul.checksum(128), 34094090944);
}

#[test]
fn checksum_is_recomputable() {
    assert_eq!(RequestType::Matmul.checksum(17), RequestType::Matmul.checksum(17));
}

#[test]
fn checksum_of_other_kinds() {
    assert_eq!(RequestType::Compute.checksum(0), 0);
    assert_eq!(RequestType::Compute.checksum(12345), 12345);
    assert_eq!(RequestType::Io.checksum(1), 2000000);
    assert_eq!(RequestType::Io.checksum(u64::MAX), IO_CHECKSUM);
}

#[test]
fn product_of_two_by_two() {
    assert_eq!(matmul_by_transpose(2), vec![5, 11, 11, 25]);
    assert_eq!(matmul_by_transpose(1), vec![1]);
}

#[test]
fn product_is_symmetric() {
    let n = 6usize;
    let product = matmul_by_transpose(n as u64);
    assert_eq!(product.len(), n * n);
    for i in 0..n {
        for j in 0..n {
            assert_eq!(product[i * n + j], product[j * n + i]);
        }
    }
}

#[test]
fn checksum_fits_up_to_the_largest_size() {
    assert!(!RequestType::Matmul.checksum_fits(0));
    assert!(RequestType::Matmul.checksum_fits(1));
    assert!(RequestType::Matmul.checksum_fits(MAX_MATMUL_SIZE));
    assert!(!RequestType::Matmul.checksum_fits(MAX_MATMUL_SIZE + 1));
    assert!(RequestType::Compute.checksum_fits(0));
    assert!(RequestType::Io.checksum_fits(u64::MAX));
}

#[test]
fn largest_size_is_the_last_that_fits() {
    let sum = |n: u128| -> u128 { (0..n).map(|k| ((n - 1) * n + k + 1).pow(2)).sum() };
    assert!(sum(MAX_MATMUL_SIZE as u128) <= u64::MAX as u128);
    assert!(sum(MAX_MATMUL_SIZE as u128 + 1) > u64::MAX as u128);
}

#[test]
fn matmul_body_decodes_to_the_size() {
    let body = RequestType::Matmul.body(918733457491587, "");
    assert_eq!(decode_u64_be(&body[..8]), Some(918733457491587));
    assert_eq!(decode_u64_be(&body[8..]), Some(918733457491587));
}

#[test]
fn decode_wants_exactly_eight_bytes() {
    assert_eq!(decode_u64_be(&[]), None);
    assert_eq!(decode_u64_be(&[0, 0, 0, 0, 0, 0, 1]), None);
    assert_eq!(decode_u64_be(&[0, 0, 0, 0, 0, 0, 0, 0, 1]), None);
    assert_eq!(decode_u64_be(&[0, 0, 0, 0, 0, 0, 1, 2]), Some(258));
    assert_eq!(decode_u64_be(&[255; 8]), Some(u64::MAX));
    assert_eq!(decode_u64_be(&[0x00, 0x03, 0x43, 0x95, 0x4d, 0x60, 0x86, 0x83]), Some(918733457491587));
}
