use redix::persistence::decode_records;
use redix::persistence::encode_record;
use redix::persistence::encode_records;
use redix::persistence::LogReadError;
use redix::persistence::PersistenceManager;

#[test]
fn file_names_follow_the_node_id() {
    let pm = PersistenceManager::new(42);
    assert_eq!(pm.log_path, "node_42.log");
    assert_eq!(pm.snapshot_path, "node_42.rdb");
    assert_eq!(pm.metadata_path, "node_42.meta");
    let pm0 = PersistenceManager::new(0);
    assert_eq!(pm0.log_path, "node_0.log");
    let big = PersistenceManager::new(u64::MAX);
    assert_eq!(big.metadata_path, "node_18446744073709551615.meta");
}

#[test]
fn a_record_is_its_length_in_little_endian_then_its_bytes() {
    assert_eq!(encode_record(&[7, 8, 9]), vec![3, 0, 0, 0, 7, 8, 9]);
    assert_eq!(encode_record(&[]), vec![0, 0, 0, 0]);
    let long = vec![1u8; 300];
    let framed = encode_record(&long);
    assert_eq!(&framed[..4], &[44, 1, 0, 0]);
    assert_eq!(framed.len(), 304);
}

#[test]
fn records_read_back_as_written() {
    let records = vec![vec![1u8, 2], vec![], vec![3u8; 260]];
    let bytes = encode_records(&records);
    assert_eq!(decode_records(&bytes), Ok(records.clone()));
    let mut appended = bytes.clone();
    appended.extend(encode_record(&[9, 9]));
    let mut expected = records.clone();
    expected.push(vec![9, 9]);
    assert_eq!(decode_records(&appended), Ok(expected));
}

#[test]
fn empty_log_and_short_tail_read_as_no_more_records() {
    assert_eq!(decode_records(&[]), Ok(vec![]));
    assert_eq!(decode_records(&[1, 0, 0, 0, 5, 2, 0]), Ok(vec![vec![5u8]]));
}

#[test]
fn a_cut_record_is_an_error() {
    assert_eq!(decode_records(&[3, 0, 0, 0, 1, 2]), Err(LogReadError::TruncatedRecord));
}
