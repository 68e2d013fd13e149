use prometheus_client_python_speedups::collect::{
    read_multiprocess_files, Collector, FileContent, SourceFile,
};
use prometheus_client_python_speedups::error::{Corruption, MergeError};
use prometheus_client_python_speedups::files::classify_file_name;
use prometheus_client_python_speedups::histogram::Threshold;
use prometheus_client_python_speedups::labels::Labels;
use prometheus_client_python_speedups::layout::ByteOrder;
use prometheus_client_python_speedups::merge::{merge_files, merge_internal};
use prometheus_client_python_speedups::metric::{MergedMetric, MergedSample};
use prometheus_client_python_speedups::record::{decode_records, encode_records, Record};

fn key(metric: &str, name: &str, l: &[(&str, &str)], help: &str) -> String {
    let labels: Vec<String> = l.iter().map(|(k, v)| format!("\"{}\": \"{}\"", k, v)).collect();
    format!("[\"{}\", \"{}\", {{{}}}, \"{}\"]", metric, name, labels.join(", "), help)
}

fn data(order: ByteOrder, records: &[(String, f64, f64)]) -> FileContent {
    let records: Vec<Record> = records
        .iter()
        .map(|(k, v, t)| Record { key: k.clone(), value: v.to_bits(), timestamp: t.to_bits() })
        .collect();
    FileContent::Data(encode_records(&records, order).unwrap())
}

fn file(name: &str, records: &[(String, f64, f64)]) -> SourceFile {
    SourceFile { name: name.to_string(), content: data(ByteOrder::Little, records) }
}

fn labels(pairs: &[(&str, &str)]) -> Labels {
    let mut l = Labels::new();
    for (k, v) in pairs {
        l.insert(k.to_string(), v.to_string());
    }
    l
}

fn total(value: &Vec<Vec<u64>>) -> f64 {
    let mut sums = value.iter().map(|terms| {
        let mut it = terms.iter().map(|b| f64::from_bits(*b));
        let first = it.next().unwrap();
        it.fold(first, |a, b| a + b)
    });
    let first = sums.next().unwrap();
    sums.fold(first, |a, b| a + b)
}

fn thresholds(texts: &[&str]) -> Vec<Threshold> {
    texts
        .iter()
        .map(|t| Threshold { text: t.to_string(), bits: t.parse::<f64>().unwrap().to_bits() })
        .collect()
}

fn metric<'a>(merged: &'a Vec<MergedMetric>, name: &str) -> &'a MergedMetric {
    let found: Vec<&MergedMetric> = merged.iter().filter(|m| m.name == name).collect();
    assert_eq!(found.len(), 1, "metric {}", name);
    found[0]
}

fn sample<'a>(m: &'a MergedMetric, name: &str, l: &[(&str, &str)]) -> &'a MergedSample {
    let wanted = labels(l);
    let found: Vec<&MergedSample> =
        m.samples.iter().filter(|s| s.name == name && s.labels.same(&wanted)).collect();
    assert_eq!(found.len(), 1, "sample {} {:?}", name, l);
    found[0]
}

fn values(merged: &Vec<MergedMetric>) -> Vec<(String, String, Vec<(String, String)>, u64)> {
    let mut all = Vec::new();
    for m in merged {
        for s in &m.samples {
            let mut l: Vec<(String, String)> = (0..s.labels.len())
                .map(|i| (s.labels.name_at(i).clone(), s.labels.value_at(i).clone()))
                .collect();
            l.sort();
            all.push((m.name.clone(), s.name.clone(), l, total(&s.value).to_bits()));
        }
    }
    all.sort();
    all
}

fn worker(pid: u32, requests: f64, in_flight: f64, seen: f64, buckets: [f64; 3]) -> Vec<SourceFile> {
    let hkey = |le: &str| key("latency", "latency_bucket", &[("le", le), ("path", "/")], "Latency");
    vec![
        file(
            &format!("counter_{}.db", pid),
            &[(key("requests", "requests_total", &[("path", "/")], "Requests"), requests, 0.0)],
        ),
        file(
            &format!("gauge_livesum_{}.db", pid),
            &[(key("in_flight", "in_flight", &[], "In flight"), in_flight, 0.0)],
        ),
        file(
            &format!("gauge_mostrecent_{}.db", pid),
            &[(key("last_seen", "last_seen", &[], "Last seen"), seen, seen)],
        ),
        file(
            &format!("gauge_all_{}.db", pid),
            &[(key("memory", "memory", &[], "Memory"), in_flight * 10.0, 0.0)],
        ),
        file(
            &format!("histogram_{}.db", pid),
            &[
                (hkey("1.0"), buckets[0], 0.0),
                (hkey("5.0"), buckets[1], 0.0),
                (hkey("+Inf"), buckets[2], 0.0),
                (key("latency", "latency_sum", &[("path", "/")], "Latency"), requests * 0.25, 0.0),
            ],
        ),
    ]
}

fn in_native_order(files: Vec<SourceFile>) -> Vec<SourceFile> {
    files
        .into_iter()
        .map(|f| {
            let content = match f.content {
                FileContent::Data(bytes) => {
                    let records = decode_records(&bytes, bytes.len(), ByteOrder::Little).unwrap();
                    FileContent::Data(encode_records(&records, ByteOrder::native()).unwrap())
                }
                other => other,
            };
            SourceFile { name: f.name, content }
        })
        .collect()
}

#[test]
fn test_merge() {
    let mut files = worker(11, 3.0, 1.0, 100.0, [1.0, 2.0, 0.0]);
    files.extend(worker(12, 4.0, 2.0, 120.0, [1.0, 1.0, 1.0]));
    let files = in_native_order(files);
    let table = thresholds(&["1.0", "5.0", "+Inf"]);
    for _ in 0..100 {
        let result = merge_internal(&files, &table);
        assert!(result.is_ok());
        assert!(!result.unwrap().is_empty());
    }
}

#[test]
fn files_of_two_processes_are_merged() {
    let mut files = worker(11, 3.0, 1.0, 100.0, [1.0, 2.0, 0.0]);
    files.extend(worker(12, 4.0, 2.0, 120.0, [1.0, 1.0, 1.0]));
    let table = thresholds(&["1.0", "5.0", "+Inf"]);
    let merged = merge_files(&files, &table, ByteOrder::Little).unwrap();
    assert_eq!(merged.len(), 5);
    let requests = metric(&merged, "requests");
    assert_eq!(requests.typ, "counter");
    assert_eq!(requests.documentation, "Requests");
    assert_eq!(total(&sample(requests, "requests_total", &[("path", "/")]).value), 7.0);
    assert_eq!(total(&sample(metric(&merged, "in_flight"), "in_flight", &[]).value), 3.0);
    assert_eq!(total(&sample(metric(&merged, "last_seen"), "last_seen", &[]).value), 120.0);
    let memory = metric(&merged, "memory");
    assert_eq!(memory.typ, "gauge");
    assert_eq!(memory.samples.len(), 2);
    assert_eq!(total(&sample(memory, "memory", &[("pid", "11")]).value), 10.0);
    assert_eq!(total(&sample(memory, "memory", &[("pid", "12")]).value), 20.0);
    let latency = metric(&merged, "latency");
    assert_eq!(latency.typ, "histogram");
    let bucket = |le: &str| {
        total(&sample(latency, "latency_bucket", &[("le", le), ("path", "/")]).value)
    };
    assert_eq!(bucket("1.0"), 2.0);
    assert_eq!(bucket("5.0"), 5.0);
    assert_eq!(bucket("+Inf"), 6.0);
    assert_eq!(total(&sample(latency, "latency_count", &[("path", "/")]).value), 6.0);
    assert_eq!(total(&sample(latency, "latency_sum", &[("path", "/")]).value), 1.75);
    for m in &merged {
        for s in &m.samples {
            assert_eq!(s.timestamp, 0);
        }
    }
}

#[test]
fn order_of_the_files_does_not_change_the_values() {
    let a = worker(11, 3.0, 1.0, 100.0, [1.0, 2.0, 0.0]);
    let b = worker(12, 4.0, 2.0, 120.0, [1.0, 1.0, 1.0]);
    let table = thresholds(&["1.0", "5.0", "+Inf"]);
    let mut ab: Vec<SourceFile> = Vec::new();
    ab.extend(worker(11, 3.0, 1.0, 100.0, [1.0, 2.0, 0.0]));
    ab.extend(worker(12, 4.0, 2.0, 120.0, [1.0, 1.0, 1.0]));
    let mut ba: Vec<SourceFile> = Vec::new();
    ba.extend(b);
    ba.extend(a);
    let first = merge_files(&ab, &table, ByteOrder::Little).unwrap();
    let second = merge_files(&ba, &table, ByteOrder::Little).unwrap();
    assert_eq!(values(&first), values(&second));
}

#[test]
fn pid_label_comes_from_the_file_name() {
    let files = vec![file(
        "gauge_all_4711.db",
        &[(key("g", "g", &[("a", "b")], "G"), 1.0, 0.0)],
    )];
    let metrics = read_multiprocess_files(&files, ByteOrder::Little).unwrap();
    assert_eq!(metrics.len(), 1);
    assert_eq!(metrics[0].name, "g");
    assert_eq!(metrics[0].documentation, "G");
    assert_eq!(metrics[0].typ, "gauge");
    assert_eq!(metrics[0].multiprocess_mode.as_deref(), Some("all"));
    assert_eq!(metrics[0].samples.len(), 1);
    assert!(metrics[0].samples[0].labels.same(&labels(&[("a", "b"), ("pid", "4711")])));
    assert_eq!(f64::from_bits(metrics[0].samples[0].value), 1.0);
}

#[test]
fn first_help_text_and_type_stay() {
    let files = vec![
        file("counter_1.db", &[(key("m", "m_total", &[], "first"), 1.0, 0.0)]),
        file("summary_2.db", &[(key("m", "m_total", &[], "second"), 2.0, 0.0)]),
    ];
    let metrics = read_multiprocess_files(&files, ByteOrder::Little).unwrap();
    assert_eq!(metrics.len(), 1);
    assert_eq!(metrics[0].documentation, "first");
    assert_eq!(metrics[0].typ, "counter");
    assert_eq!(metrics[0].samples.len(), 2);
    assert!(metrics[0].multiprocess_mode.is_none());
}

#[test]
fn missing_live_gauge_file_is_passed_over() {
    let files = vec![
        file("gauge_livesum_1.db", &[(key("g", "g", &[], "G"), 3.0, 0.0)]),
        SourceFile {
            name: "gauge_livesum_2.db".to_string(),
            content: FileContent::NotFound("No such file".to_string()),
        },
        file("gauge_livesum_3.db", &[(key("g", "g", &[], "G"), 4.0, 0.0)]),
    ];
    let merged = merge_files(&files, &vec![], ByteOrder::Little).unwrap();
    assert_eq!(merged.len(), 1);
    assert_eq!(total(&sample(&merged[0], "g", &[]).value), 7.0);
    let only_missing = vec![SourceFile {
        name: "gauge_liveall_2.db".to_string(),
        content: FileContent::NotFound("No such file".to_string()),
    }];
    assert!(merge_files(&only_missing, &vec![], ByteOrder::Little).unwrap().is_empty());
}

#[test]
fn missing_file_that_is_not_live_fails_the_merge() {
    for name in ["gauge_sum_2.db", "counter_2.db", "histogram_2.db", "counter_live_2.db"] {
        let files = vec![
            file("counter_1.db", &[(key("c", "c_total", &[], "C"), 3.0, 0.0)]),
            SourceFile {
                name: name.to_string(),
                content: FileContent::NotFound("No such file or directory".to_string()),
            },
        ];
        match merge_files(&files, &vec![], ByteOrder::Little) {
            Err(MergeError::IoFailure(text)) => assert_eq!(text, "No such file or directory"),
            other => panic!("expected a failure, got {:?}", other),
        }
    }
}

#[test]
fn unreadable_file_fails_the_merge_even_if_live() {
    let files = vec![SourceFile {
        name: "gauge_livesum_2.db".to_string(),
        content: FileContent::Unreadable("Permission denied".to_string()),
    }];
    match merge_files(&files, &vec![], ByteOrder::Little) {
        Err(e) => {
            assert!(matches!(&e, MergeError::IoFailure(text) if text == "Permission denied"));
            assert_eq!(e.message(), "Permission denied");
        }
        other => panic!("expected a failure, got {:?}", other),
    }
}

#[test]
fn corrupt_files_fail_the_merge() {
    let fails = |f: SourceFile, c: Corruption| match merge_files(&vec![f], &vec![], ByteOrder::Little) {
        Err(MergeError::DataCorruption(found)) => assert_eq!(found, c),
        other => panic!("expected corruption, got {:?}", other),
    };
    fails(
        SourceFile { name: "counter_1.db".to_string(), content: FileContent::Data(vec![1, 2]) },
        Corruption::ShortHeader,
    );
    fails(
        SourceFile {
            name: "counter_1.db".to_string(),
            content: FileContent::Data(vec![100, 0, 0, 0, 0, 0, 0, 0]),
        },
        Corruption::TruncatedFile,
    );
    fails(file("counter_1.db", &[("not json".to_string(), 1.0, 0.0)]), Corruption::InvalidKey);
    fails(file("gauge", &[]), Corruption::InvalidFileName);
    fails(file("gauge_all", &[(key("g", "g", &[], "G"), 1.0, 0.0)]), Corruption::MissingPid);
    let mut bytes = match data(ByteOrder::Little, &[(key("c", "c", &[], "C"), 1.0, 0.0)]) {
        FileContent::Data(bytes) => bytes,
        _ => unreachable!(),
    };
    bytes.truncate(bytes.len() - 1);
    bytes[0] -= 1;
    fails(
        SourceFile { name: "counter_1.db".to_string(), content: FileContent::Data(bytes) },
        Corruption::TruncatedRecord,
    );
    let h = file(
        "histogram_1.db",
        &[(key("h", "h_bucket", &[("le", "x")], "H"), 1.0, 0.0)],
    );
    fails(h, Corruption::InvalidThreshold);
}

#[test]
fn gauge_file_without_records_needs_no_pid() {
    let merged = merge_files(&vec![file("gauge_all", &[])], &vec![], ByteOrder::Little).unwrap();
    assert!(merged.is_empty());
}

#[test]
fn collector_takes_files_one_by_one() {
    let mut collector = Collector::new();
    let class = classify_file_name("gauge_max_5.db").unwrap();
    let records = vec![Record {
        key: key("g", "g", &[], "G"),
        value: 2.0f64.to_bits(),
        timestamp: 0,
    }];
    collector.absorb_records(&class, &records).unwrap();
    collector
        .absorb_file(&file("gauge_max_6.db", &[(key("g", "g", &[], "G"), 5.0, 0.0)]), ByteOrder::Little)
        .unwrap();
    let metrics = collector.into_metrics();
    assert_eq!(metrics.len(), 1);
    assert_eq!(metrics[0].samples.len(), 2);
    assert_eq!(metrics[0].multiprocess_mode.as_deref(), Some("max"));
}

#[test]
fn merge_internal_reads_files_of_this_machine() {
    let name = "counter_1.db".to_string();
    let content = data(ByteOrder::native(), &[(key("c", "c_total", &[], "C"), 3.0, 0.0)]);
    let merged = merge_internal(&vec![SourceFile { name, content }], &vec![]).unwrap();
    assert_eq!(merged.len(), 1);
    assert_eq!(total(&merged[0].samples[0].value), 3.0);
}

#[test]
fn files_of_different_types_may_come_in_any_order() {
    let counter = || file("counter_1.db", &[(key("c", "c_total", &[], "C"), 3.0, 0.0)]);
    let gauge = || file("gauge_min_2.db", &[(key("g", "g", &[], "G"), 4.0, 0.0)]);
    let first = merge_files(&vec![counter(), gauge()], &vec![], ByteOrder::Little).unwrap();
    let second = merge_files(&vec![gauge(), counter()], &vec![], ByteOrder::Little).unwrap();
    assert_eq!(values(&first), values(&second));
    assert_eq!(first.len(), 2);
    assert_eq!(metric(&first, "c").typ, "counter");
    assert_eq!(metric(&second, "c").typ, "counter");
    assert_eq!(metric(&second, "g").typ, "gauge");
}

#[test]
fn most_recent_of_one_moment_is_that_of_the_first_file() {
    let a = || file("gauge_mostrecent_1.db", &[(key("g", "g", &[], "G"), 1.0, 10.0)]);
    let b = || file("gauge_mostrecent_2.db", &[(key("g", "g", &[], "G"), 2.0, 10.0)]);
    let first = merge_files(&vec![a(), b()], &vec![], ByteOrder::Little).unwrap();
    let second = merge_files(&vec![b(), a()], &vec![], ByteOrder::Little).unwrap();
    assert_eq!(total(&first[0].samples[0].value), 1.0);
    assert_eq!(total(&second[0].samples[0].value), 2.0);
}

#[test]
fn keys_are_decoded_from_objects_too() {
    let text = r#"{"metric_name": "c", "name": "c_total", "labels": {"a": "b"}, "help_text": "C"}"#;
    let files = vec![file("counter_1.db", &[(text.to_string(), 3.0, 0.0)])];
    let merged = merge_files(&files, &vec![], ByteOrder::Little).unwrap();
    assert_eq!(merged[0].documentation, "C");
    assert_eq!(total(&sample(&merged[0], "c_total", &[("a", "b")]).value), 3.0);
}

#[test]
fn many_metrics_keep_the_order_in_which_they_came() {
    let mut records = Vec::new();
    for i in 0..50 {
        records.push((key(&format!("m{}", i % 25), "s", &[], "H"), 1.0, 0.0));
    }
    let merged = merge_files(&vec![file("counter_1.db", &records)], &vec![], ByteOrder::Little)
        .unwrap();
    assert_eq!(merged.len(), 25);
    for (i, m) in merged.iter().enumerate() {
        assert_eq!(m.name, format!("m{}", i));
        assert_eq!(total(&m.samples[0].value), 2.0);
    }
}
