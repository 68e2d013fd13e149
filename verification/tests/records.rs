use prometheus_client_python_speedups::error::{
    corruption_text, Corruption, MergeError, TRUNCATED_FILE_TEXT,
};
use prometheus_client_python_speedups::layout::ByteOrder;
use prometheus_client_python_speedups::record::{
    decode_records, encode_records, read_all_values, Record,
};

fn record(key: &str, value: f64, timestamp: f64) -> Record {
    Record { key: key.to_string(), timestamp: timestamp.to_bits(), value: value.to_bits() }
}

fn corruption(r: Result<Vec<Record>, MergeError>) -> Corruption {
    match r {
        Err(MergeError::DataCorruption(c)) => c,
        other => panic!("expected corruption, got {:?}", other),
    }
}

#[test]
fn empty_file_has_no_records() {
    let data = vec![0u8; 16];
    let values = decode_records(&data, 0, ByteOrder::Little).unwrap();
    assert!(values.is_empty());
    let values = read_all_values(vec![0u8; 8], 0).unwrap();
    assert!(values.is_empty());
}

#[test]
fn header_only_file_has_no_records() {
    let bytes = encode_records(&vec![], ByteOrder::Little).unwrap();
    assert_eq!(bytes, vec![8, 0, 0, 0, 0, 0, 0, 0]);
    assert!(decode_records(&bytes, 8, ByteOrder::Little).unwrap().is_empty());
    assert!(decode_records(&bytes, 5, ByteOrder::Little).unwrap().is_empty());
}

#[test]
fn record_layout_is_exact() {
    let bytes = encode_records(&vec![record("abc", 1.5, 2.0)], ByteOrder::Little).unwrap();
    let mut expected: Vec<u8> = vec![32, 0, 0, 0, 0, 0, 0, 0];
    expected.extend_from_slice(&[3, 0, 0, 0]);
    expected.extend_from_slice(b"abc");
    expected.extend_from_slice(b" ");
    expected.extend_from_slice(&1.5f64.to_le_bytes());
    expected.extend_from_slice(&2.0f64.to_le_bytes());
    assert_eq!(bytes, expected);
}

#[test]
fn aligned_key_is_padded_by_eight() {
    let bytes = encode_records(&vec![record("abcd", 1.0, 0.0)], ByteOrder::Little).unwrap();
    assert_eq!(bytes.len(), 8 + 4 + 4 + 8 + 16);
    assert_eq!(&bytes[16..24], b"        ");
    let back = decode_records(&bytes, bytes.len(), ByteOrder::Little).unwrap();
    assert_eq!(back.len(), 1);
    assert_eq!(back[0].key, "abcd");
    assert_eq!(f64::from_bits(back[0].value), 1.0);
}

#[test]
fn key_one_short_of_alignment_is_padded_by_one() {
    let bytes = encode_records(&vec![record("abc", 1.0, 0.0)], ByteOrder::Little).unwrap();
    assert_eq!(bytes.len(), 8 + 4 + 3 + 1 + 16);
    let bytes = encode_records(&vec![record("abcde", 1.0, 0.0)], ByteOrder::Little).unwrap();
    assert_eq!(bytes.len(), 8 + 4 + 5 + 7 + 16);
}

#[test]
fn records_survive_a_round_trip() {
    let mut values = Vec::new();
    for n in 0..20usize {
        values.push(record(&"k".repeat(n), n as f64 * 0.5, 1000.0 + n as f64));
    }
    values.push(record("{\"é\": \"ü\"}", -0.0, f64::INFINITY));
    for order in [ByteOrder::Little, ByteOrder::Big] {
        let bytes = encode_records(&values, order).unwrap();
        let back = decode_records(&bytes, bytes.len(), order).unwrap();
        assert_eq!(back.len(), values.len());
        for (a, b) in back.iter().zip(values.iter()) {
            assert_eq!(a.key, b.key);
            assert_eq!(a.value, b.value);
            assert_eq!(a.timestamp, b.timestamp);
        }
        assert_eq!(encode_records(&back, order).unwrap(), bytes);
    }
}

#[test]
fn byte_orders_differ() {
    let values = vec![record("a", 1.0, 2.0)];
    let little = encode_records(&values, ByteOrder::Little).unwrap();
    let big = encode_records(&values, ByteOrder::Big).unwrap();
    assert_ne!(little, big);
    assert_eq!(&big[0..4], &[0, 0, 0, 32]);
    assert_eq!(&big[16..24], &1.0f64.to_be_bytes());
}

#[test]
fn native_order_reads_native_files() {
    let mut bytes: Vec<u8> = Vec::new();
    bytes.extend_from_slice(&32u32.to_ne_bytes());
    bytes.extend_from_slice(&[0, 0, 0, 0]);
    bytes.extend_from_slice(&3u32.to_ne_bytes());
    bytes.extend_from_slice(b"abc ");
    bytes.extend_from_slice(&7.25f64.to_ne_bytes());
    bytes.extend_from_slice(&9.5f64.to_ne_bytes());
    let values = read_all_values(bytes.clone(), 32).unwrap();
    assert_eq!(values.len(), 1);
    assert_eq!(values[0].key, "abc");
    assert_eq!(f64::from_bits(values[0].value), 7.25);
    assert_eq!(f64::from_bits(values[0].timestamp), 9.5);
    let values = decode_records(&bytes, 32, ByteOrder::native()).unwrap();
    assert_eq!(values.len(), 1);
}

#[test]
fn bytes_behind_the_used_length_are_not_read() {
    let mut bytes = encode_records(&vec![record("abc", 1.0, 2.0)], ByteOrder::Little).unwrap();
    let used = bytes.len();
    bytes.extend_from_slice(&[0xff; 40]);
    let values = decode_records(&bytes, used, ByteOrder::Little).unwrap();
    assert_eq!(values.len(), 1);
}

#[test]
fn used_length_past_the_file_is_corruption() {
    let bytes = encode_records(&vec![record("abc", 1.0, 2.0)], ByteOrder::Little).unwrap();
    let r = decode_records(&bytes, bytes.len() + 1, ByteOrder::Little);
    assert_eq!(corruption(r), Corruption::TruncatedFile);
    let r = read_all_values(vec![1, 2, 3], 4);
    assert_eq!(corruption(r), Corruption::TruncatedFile);
}

#[test]
fn truncated_record_is_corruption() {
    let bytes = encode_records(&vec![record("abc", 1.0, 2.0)], ByteOrder::Little).unwrap();
    for used in 9..bytes.len() {
        let r = decode_records(&bytes, used, ByteOrder::Little);
        assert_eq!(corruption(r), Corruption::TruncatedRecord);
    }
}

#[test]
fn key_length_past_the_used_length_is_corruption() {
    let mut bytes = encode_records(&vec![record("abc", 1.0, 2.0)], ByteOrder::Little).unwrap();
    bytes[8] = 200;
    let r = decode_records(&bytes, bytes.len(), ByteOrder::Little);
    assert_eq!(corruption(r), Corruption::TruncatedRecord);
    bytes[8] = 0xff;
    bytes[9] = 0xff;
    bytes[10] = 0xff;
    bytes[11] = 0xff;
    let r = decode_records(&bytes, bytes.len(), ByteOrder::Little);
    assert_eq!(corruption(r), Corruption::TruncatedRecord);
}

#[test]
fn key_that_is_not_utf8_is_corruption() {
    let mut bytes = encode_records(&vec![record("abc", 1.0, 2.0)], ByteOrder::Little).unwrap();
    bytes[13] = 0xff;
    let r = decode_records(&bytes, bytes.len(), ByteOrder::Little);
    assert_eq!(corruption(r), Corruption::InvalidUtf8);
}

#[test]
fn first_unsound_record_decides_the_error() {
    let values = vec![record("abc", 1.0, 2.0), record("def", 1.0, 2.0)];
    let mut bytes = encode_records(&values, ByteOrder::Little).unwrap();
    bytes[13] = 0xff;
    let r = decode_records(&bytes, bytes.len() - 1, ByteOrder::Little);
    assert_eq!(corruption(r), Corruption::InvalidUtf8);
}

#[test]
fn marker_gives_the_byte_order() {
    assert_eq!(ByteOrder::of_marker(1), ByteOrder::Little);
    assert_eq!(ByteOrder::of_marker(256), ByteOrder::Big);
    assert_eq!(ByteOrder::of_marker(u16::from_ne_bytes([1, 0])), ByteOrder::native());
}

#[test]
fn corruption_has_its_text() {
    assert_eq!(corruption_text(Corruption::TruncatedFile), TRUNCATED_FILE_TEXT);
    assert_eq!(corruption_text(Corruption::TruncatedFile), "file shorter than its used length");
    assert_eq!(corruption_text(Corruption::InvalidUtf8), "record key is not UTF-8");
    let e = MergeError::DataCorruption(Corruption::MissingPid);
    assert_eq!(e.message(), "gauge file name gives no process id");
    let kinds = [
        Corruption::ShortHeader,
        Corruption::TruncatedFile,
        Corruption::TruncatedRecord,
        Corruption::InvalidUtf8,
        Corruption::InvalidKey,
        Corruption::InvalidFileName,
        Corruption::MissingPid,
        Corruption::InvalidThreshold,
    ];
    for (i, a) in kinds.iter().enumerate() {
        for b in &kinds[i + 1..] {
            assert_ne!(corruption_text(*a), corruption_text(*b));
        }
    }
}
