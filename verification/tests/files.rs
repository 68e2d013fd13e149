use prometheus_client_python_speedups::error::{Corruption, MergeError};
use prometheus_client_python_speedups::files::{
    classify_file_name, file_name_of, load_records, still_to_read, FIRST_READ_LEN,
};
use prometheus_client_python_speedups::layout::ByteOrder;
use prometheus_client_python_speedups::record::{encode_records, Record};

#[test]
fn counter_file_has_no_mode_and_no_pid() {
    let class = classify_file_name("counter_1234.db").unwrap();
    assert_eq!(class.typ, "counter");
    assert_eq!(class.mode, None);
    assert_eq!(class.pid, None);
    assert!(!class.live);
    let class = classify_file_name("histogram_77.db").unwrap();
    assert_eq!(class.typ, "histogram");
    let class = classify_file_name("summary").unwrap();
    assert_eq!(class.typ, "summary");
}

#[test]
fn gauge_file_gives_mode_and_pid() {
    let class = classify_file_name("gauge_all_1234.db").unwrap();
    assert_eq!(class.typ, "gauge");
    assert_eq!(class.mode.as_deref(), Some("all"));
    assert_eq!(class.pid.as_deref(), Some("1234"));
    assert!(!class.live);
    let class = classify_file_name("gauge_livesum_9.db").unwrap();
    assert_eq!(class.mode.as_deref(), Some("livesum"));
    assert_eq!(class.pid.as_deref(), Some("9"));
    assert!(class.live);
    let class = classify_file_name("gauge_min_12.db_more").unwrap();
    assert_eq!(class.pid.as_deref(), Some("12"));
}

#[test]
fn live_is_a_matter_of_gauges() {
    assert!(!classify_file_name("counter_live_1.db").unwrap().live);
    assert!(classify_file_name("gauge_live_1.db").unwrap().live);
    assert!(!classify_file_name("gauge_liv_1.db").unwrap().live);
    assert!(!classify_file_name("gauge_alive_1.db").unwrap().live);
}

#[test]
fn gauge_file_without_third_segment_has_no_pid() {
    let class = classify_file_name("gauge_all").unwrap();
    assert_eq!(class.pid, None);
    let class = classify_file_name("gauge_all_").unwrap();
    assert_eq!(class.pid.as_deref(), Some(""));
}

#[test]
fn pid_is_the_segment_without_its_extension() {
    let pid = |name: &str| classify_file_name(name).unwrap().pid;
    assert_eq!(pid("gauge_all_1234.db").as_deref(), Some("1234"));
    assert_eq!(pid("gauge_all_1234").as_deref(), Some("1234"));
    assert_eq!(pid("gauge_all_db").as_deref(), Some("db"));
    assert_eq!(pid("gauge_all_.db").as_deref(), Some(""));
    assert_eq!(pid("gauge_all_1234.sqlite").as_deref(), Some("1234"));
    assert_eq!(pid("gauge_all_12.34.db").as_deref(), Some("12.34"));
    assert_eq!(pid("gauge_all_1234.").as_deref(), Some("1234"));
    assert_eq!(pid("gauge_all_7.db_x.y").as_deref(), Some("7"));
}

#[test]
fn gauge_file_without_mode_is_refused() {
    let r = classify_file_name("gauge");
    assert!(matches!(r, Err(MergeError::DataCorruption(Corruption::InvalidFileName))));
    let r = classify_file_name("gauge.db");
    assert!(r.is_ok());
}

#[test]
fn file_name_is_the_last_component() {
    assert_eq!(file_name_of("/tmp/metrics/gauge_all_1.db").as_deref(), Some("gauge_all_1.db"));
    assert_eq!(file_name_of("counter_1.db").as_deref(), Some("counter_1.db"));
    assert_eq!(file_name_of("/tmp/.."), None);
    assert_eq!(file_name_of(""), None);
}

#[test]
fn file_name_is_a_part_of_the_path_and_not_empty() {
    for path in ["/a/b/c.db", "c.db", "a//b/", "./x", "/", "", "..", "a/..", "/tmp/é_1.db"] {
        if let Some(name) = file_name_of(path) {
            assert!(!name.is_empty());
            assert!(path.contains(name.as_str()));
        }
    }
    assert_eq!(file_name_of("a//b/").as_deref(), Some("b"));
}

#[test]
fn second_read_asks_for_what_is_missing() {
    assert_eq!(FIRST_READ_LEN, 4096);
    let mut first = vec![0u8; 4096];
    first[0..4].copy_from_slice(&5000u32.to_le_bytes());
    assert_eq!(still_to_read(&first, ByteOrder::Little).unwrap(), 904);
    first[0..4].copy_from_slice(&4096u32.to_le_bytes());
    assert_eq!(still_to_read(&first, ByteOrder::Little).unwrap(), 0);
    first[0..4].copy_from_slice(&0u32.to_le_bytes());
    assert_eq!(still_to_read(&first, ByteOrder::Little).unwrap(), 0);
    first[0..4].copy_from_slice(&5000u32.to_be_bytes());
    assert_eq!(still_to_read(&first, ByteOrder::Big).unwrap(), 904);
    let r = still_to_read(&vec![1, 2, 3], ByteOrder::Little);
    assert!(matches!(r, Err(MergeError::DataCorruption(Corruption::ShortHeader))));
}

#[test]
fn load_reads_the_used_length_from_the_file() {
    let values = vec![Record { key: "k".to_string(), timestamp: 1, value: 2 }];
    let mut bytes = encode_records(&values, ByteOrder::Little).unwrap();
    bytes.extend_from_slice(&[0u8; 100]);
    let back = load_records(&bytes, ByteOrder::Little).unwrap();
    assert_eq!(back.len(), 1);
    assert_eq!(back[0].key, "k");
    assert_eq!(back[0].value, 2);
}

#[test]
fn load_of_a_file_without_used_bytes_is_empty() {
    let back = load_records(&vec![0u8; 4096], ByteOrder::Little).unwrap();
    assert!(back.is_empty());
    let back = load_records(&vec![0u8; 4], ByteOrder::Little).unwrap();
    assert!(back.is_empty());
}

#[test]
fn load_of_a_short_file_is_corruption() {
    let r = load_records(&vec![0u8; 3], ByteOrder::Little);
    assert!(matches!(r, Err(MergeError::DataCorruption(Corruption::ShortHeader))));
    let mut bytes = vec![0u8; 100];
    bytes[0..4].copy_from_slice(&200u32.to_le_bytes());
    let r = load_records(&bytes, ByteOrder::Little);
    assert!(matches!(r, Err(MergeError::DataCorruption(Corruption::TruncatedFile))));
}
