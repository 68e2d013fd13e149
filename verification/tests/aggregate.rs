use prometheus_client_python_speedups::aggregate::{accumulate_samples, Accumulator};
use prometheus_client_python_speedups::error::{Corruption, MergeError};
use prometheus_client_python_speedups::histogram::Threshold;
use prometheus_client_python_speedups::labels::Labels;
use prometheus_client_python_speedups::merge::{
    accumulate_metrics, histogram_thresholds, merge_metric,
};
use prometheus_client_python_speedups::metric::{
    policy_of, MergedMetric, MergedSample, Metric, Policy, Sample,
};

fn labels(pairs: &[(&str, &str)]) -> Labels {
    let mut l = Labels::new();
    for (k, v) in pairs {
        l.insert(k.to_string(), v.to_string());
    }
    l
}

fn total(value: &Vec<Vec<u64>>) -> f64 {
    let mut sums = value.iter().map(|terms| {
        let mut it = terms.iter().map(|b| f64::from_bits(*b));
        let first = it.next().unwrap();
        it.fold(first, |a, b| a + b)
    });
    let first = sums.next().unwrap();
    sums.fold(first, |a, b| a + b)
}

fn gauge(mode: &str, samples: &[(&str, &[(&str, &str)], f64, f64)]) -> Metric {
    let mut m = Metric::new("g".to_string(), "a gauge".to_string(), "gauge".to_string());
    m.multiprocess_mode = Some(mode.to_string());
    for (name, l, value, timestamp) in samples {
        m.add_sample(name.to_string(), labels(l), value.to_bits(), timestamp.to_bits());
    }
    m
}

fn metric(typ: &str, samples: &[(&str, &[(&str, &str)], f64)]) -> Metric {
    let mut m = Metric::new("m".to_string(), "doc".to_string(), typ.to_string());
    for (name, l, value) in samples {
        m.add_sample(name.to_string(), labels(l), value.to_bits(), 0);
    }
    m
}

fn thresholds(texts: &[&str]) -> Vec<Threshold> {
    texts
        .iter()
        .map(|t| Threshold { text: t.to_string(), bits: t.parse::<f64>().unwrap().to_bits() })
        .collect()
}

fn merge(m: &Metric) -> MergedMetric {
    merge_metric(m, &vec![]).unwrap()
}

fn find<'a>(m: &'a MergedMetric, name: &str, l: &[(&str, &str)]) -> &'a MergedSample {
    let wanted = labels(l);
    let found: Vec<&MergedSample> =
        m.samples.iter().filter(|s| s.name == name && s.labels.same(&wanted)).collect();
    assert_eq!(found.len(), 1, "sample {} {:?}", name, l);
    found[0]
}

fn permutations(values: &[f64]) -> Vec<Vec<f64>> {
    if values.len() <= 1 {
        return vec![values.to_vec()];
    }
    let mut all = Vec::new();
    for i in 0..values.len() {
        let mut rest = values.to_vec();
        let first = rest.remove(i);
        for mut p in permutations(&rest) {
            p.insert(0, first);
            all.push(p);
        }
    }
    all
}

#[test]
fn new_metric_has_no_samples() {
    let m = Metric::new("n".to_string(), "d".to_string(), "counter".to_string());
    assert_eq!(m.name, "n");
    assert_eq!(m.documentation, "d");
    assert_eq!(m.typ, "counter");
    assert!(m.multiprocess_mode.is_none());
    assert!(m.samples.is_empty());
}

#[test]
fn add_sample_appends() {
    let mut m = Metric::new("n".to_string(), "d".to_string(), "counter".to_string());
    m.add_sample("n_total".to_string(), labels(&[("a", "b")]), 3, 4);
    m.add_sample("n_created".to_string(), Labels::new(), 5, 6);
    assert_eq!(m.samples.len(), 2);
    assert_eq!(m.samples[0].name, "n_total");
    assert_eq!(m.samples[0].value, 3);
    assert_eq!(m.samples[0].timestamp, 4);
    assert_eq!(m.samples[0].labels.get("a").unwrap(), "b");
    assert_eq!(m.samples[1].name, "n_created");
}

#[test]
fn policy_follows_type_and_mode() {
    let mode = |m: &str| Some(m.to_string());
    assert_eq!(policy_of("gauge", mode("min").as_ref()), Policy::Min);
    assert_eq!(policy_of("gauge", mode("livemin").as_ref()), Policy::Min);
    assert_eq!(policy_of("gauge", mode("max").as_ref()), Policy::Max);
    assert_eq!(policy_of("gauge", mode("livemax").as_ref()), Policy::Max);
    assert_eq!(policy_of("gauge", mode("sum").as_ref()), Policy::Sum);
    assert_eq!(policy_of("gauge", mode("livesum").as_ref()), Policy::Sum);
    assert_eq!(policy_of("gauge", mode("mostrecent").as_ref()), Policy::MostRecent);
    assert_eq!(policy_of("gauge", mode("livemostrecent").as_ref()), Policy::MostRecent);
    assert_eq!(policy_of("gauge", mode("all").as_ref()), Policy::All);
    assert_eq!(policy_of("gauge", mode("liveall").as_ref()), Policy::All);
    assert_eq!(policy_of("gauge", mode("nonsense").as_ref()), Policy::All);
    assert_eq!(policy_of("gauge", None), Policy::All);
    assert_eq!(policy_of("histogram", mode("min").as_ref()), Policy::Histogram);
    assert_eq!(policy_of("counter", None), Policy::Counter);
    assert_eq!(policy_of("summary", None), Policy::Counter);
    assert_eq!(policy_of("untyped", mode("sum").as_ref()), Policy::Counter);
}

#[test]
fn sum_gauge_adds_across_processes() {
    for mode in ["sum", "livesum"] {
        let m = gauge(
            mode,
            &[("g", &[("l", "x"), ("pid", "1")], 3.0, 0.0), ("g", &[("l", "x"), ("pid", "2")], 4.0, 0.0)],
        );
        let merged = merge(&m);
        assert_eq!(merged.samples.len(), 1);
        let s = find(&merged, "g", &[("l", "x")]);
        assert_eq!(total(&s.value), 7.0);
        assert_eq!(s.value, vec![vec![3.0f64.to_bits(), 4.0f64.to_bits()]]);
        assert_eq!(s.timestamp, 0);
    }
}

#[test]
fn min_and_max_gauges_do_not_depend_on_the_order() {
    for order in permutations(&[5.0, 2.0, 9.0]) {
        let samples: Vec<(&str, Vec<(&str, String)>, f64)> = order
            .iter()
            .enumerate()
            .map(|(i, v)| ("g", vec![("pid", i.to_string())], *v))
            .collect();
        for (mode, expected) in [("min", 2.0), ("livemin", 2.0), ("max", 9.0), ("livemax", 9.0)] {
            let mut m = Metric::new("g".to_string(), "d".to_string(), "gauge".to_string());
            m.multiprocess_mode = Some(mode.to_string());
            for (name, l, v) in &samples {
                let mut ls = Labels::new();
                for (k, val) in l {
                    ls.insert(k.to_string(), val.clone());
                }
                m.add_sample(name.to_string(), ls, v.to_bits(), 0);
            }
            let merged = merge(&m);
            assert_eq!(merged.samples.len(), 1);
            let s = find(&merged, "g", &[]);
            assert_eq!(s.value, vec![vec![f64::to_bits(expected)]]);
        }
    }
}

#[test]
fn most_recent_gauge_keeps_the_latest_and_the_first_of_equals() {
    for mode in ["mostrecent", "livemostrecent"] {
        let m = gauge(
            mode,
            &[
                ("g", &[("pid", "1")], 1.0, 10.0),
                ("g", &[("pid", "2")], 2.0, 10.0),
                ("g", &[("pid", "3")], 3.0, 9.0),
            ],
        );
        let merged = merge(&m);
        assert_eq!(total(&find(&merged, "g", &[]).value), 1.0);
        let m = gauge(
            mode,
            &[
                ("g", &[("pid", "1")], 1.0, 10.0),
                ("g", &[("pid", "2")], 2.0, 10.0),
                ("g", &[("pid", "3")], 3.0, 12.0),
                ("g", &[("pid", "4")], 4.0, 11.0),
            ],
        );
        let merged = merge(&m);
        assert_eq!(merged.samples.len(), 1);
        assert_eq!(total(&find(&merged, "g", &[]).value), 3.0);
        assert_eq!(find(&merged, "g", &[]).timestamp, 0);
    }
}

#[test]
fn all_gauge_keeps_each_process_apart_and_the_last_of_a_process() {
    for mode in ["all", "liveall", "other"] {
        let m = gauge(
            mode,
            &[
                ("g", &[("pid", "1")], 1.0, 0.0),
                ("g", &[("pid", "2")], 2.0, 0.0),
                ("g", &[("pid", "1")], 5.0, 0.0),
            ],
        );
        let merged = merge(&m);
        assert_eq!(merged.samples.len(), 2);
        assert_eq!(total(&find(&merged, "g", &[("pid", "1")]).value), 5.0);
        assert_eq!(total(&find(&merged, "g", &[("pid", "2")]).value), 2.0);
    }
}

#[test]
fn gauge_without_mode_is_kept_by_process() {
    let mut m = Metric::new("g".to_string(), "d".to_string(), "gauge".to_string());
    m.add_sample("g".to_string(), labels(&[("pid", "1")]), 1.0f64.to_bits(), 0);
    m.add_sample("g".to_string(), labels(&[("pid", "2")]), 2.0f64.to_bits(), 0);
    assert_eq!(merge(&m).samples.len(), 2);
}

#[test]
fn counter_adds_by_name_and_labels() {
    for typ in ["counter", "summary", "untyped"] {
        let m = metric(
            typ,
            &[
                ("m_total", &[("a", "1")], 1.0),
                ("m_total", &[("a", "2")], 2.0),
                ("m_total", &[("a", "1")], 0.5),
                ("m_created", &[("a", "1")], 100.0),
                ("m_total", &[("a", "1"), ("pid", "3")], 8.0),
            ],
        );
        let merged = merge(&m);
        assert_eq!(merged.name, "m");
        assert_eq!(merged.documentation, "doc");
        assert_eq!(merged.typ, typ);
        assert_eq!(merged.samples.len(), 4);
        assert_eq!(total(&find(&merged, "m_total", &[("a", "1")]).value), 1.5);
        assert_eq!(total(&find(&merged, "m_total", &[("a", "2")]).value), 2.0);
        assert_eq!(total(&find(&merged, "m_created", &[("a", "1")]).value), 100.0);
        assert_eq!(total(&find(&merged, "m_total", &[("a", "1"), ("pid", "3")]).value), 8.0);
    }
}

#[test]
fn merged_samples_come_in_the_order_of_their_series() {
    let m = metric("counter", &[("b", &[], 1.0), ("a", &[], 2.0), ("b", &[], 3.0), ("c", &[], 4.0)]);
    let merged = merge(&m);
    let names: Vec<&str> = merged.samples.iter().map(|s| s.name.as_str()).collect();
    assert_eq!(names, vec!["b", "a", "c"]);
}

#[test]
fn histogram_buckets_are_cumulative() {
    let mut m = Metric::new("h".to_string(), "d".to_string(), "histogram".to_string());
    let add = |m: &mut Metric, le: &str, v: f64| {
        m.add_sample("h_bucket".to_string(), labels(&[("le", le), ("m", "get")]), v.to_bits(), 0)
    };
    add(&mut m, "+Inf", 0.5);
    add(&mut m, "5.0", 1.0);
    add(&mut m, "1.0", 2.0);
    add(&mut m, "5.0", 2.0);
    add(&mut m, "+Inf", 0.5);
    m.add_sample("h_sum".to_string(), labels(&[("m", "get")]), 12.5f64.to_bits(), 0);
    m.add_sample("h_sum".to_string(), labels(&[("m", "get")]), 0.5f64.to_bits(), 0);
    let asked = histogram_thresholds(&vec![
        Metric::new("x".to_string(), "d".to_string(), "counter".to_string()),
    ]);
    assert!(asked.is_empty());
    let metrics = vec![m];
    let asked = histogram_thresholds(&metrics);
    assert_eq!(asked, vec!["+Inf", "5.0", "1.0", "5.0", "+Inf"]);
    let table = thresholds(&["+Inf", "5.0", "1.0"]);
    let merged = accumulate_metrics(metrics, &table).unwrap();
    assert_eq!(merged.len(), 1);
    let h = &merged[0];
    assert_eq!(h.samples.len(), 5);
    assert_eq!(total(&find(h, "h_bucket", &[("le", "1.0"), ("m", "get")]).value), 2.0);
    assert_eq!(total(&find(h, "h_bucket", &[("le", "5.0"), ("m", "get")]).value), 5.0);
    assert_eq!(total(&find(h, "h_bucket", &[("le", "+Inf"), ("m", "get")]).value), 6.0);
    assert_eq!(total(&find(h, "h_count", &[("m", "get")]).value), 6.0);
    assert_eq!(total(&find(h, "h_sum", &[("m", "get")]).value), 13.0);
    let zero = 0.0f64.to_bits();
    assert_eq!(
        find(h, "h_bucket", &[("le", "5.0"), ("m", "get")]).value,
        vec![vec![zero], vec![2.0f64.to_bits()], vec![1.0f64.to_bits(), 2.0f64.to_bits()]]
    );
    let names: Vec<&str> = h.samples.iter().map(|s| s.name.as_str()).collect();
    assert_eq!(names, vec!["h_sum", "h_bucket", "h_bucket", "h_bucket", "h_count"]);
    let les: Vec<&str> =
        h.samples[1..4].iter().map(|s| s.labels.get("le").unwrap().as_str()).collect();
    assert_eq!(les, vec!["1.0", "5.0", "+Inf"]);
}

#[test]
fn histogram_groups_are_apart() {
    let mut m = Metric::new("h".to_string(), "d".to_string(), "histogram".to_string());
    for (method, le, v) in
        [("get", "1", 1.0), ("put", "1", 10.0), ("get", "2", 2.0), ("put", "2", 20.0)]
    {
        m.add_sample("h_bucket".to_string(), labels(&[("m", method), ("le", le)]), f64::to_bits(v), 0);
    }
    let h = merge_metric(&m, &thresholds(&["1", "2"])).unwrap();
    assert_eq!(h.samples.len(), 6);
    assert_eq!(total(&find(&h, "h_bucket", &[("le", "2"), ("m", "get")]).value), 3.0);
    assert_eq!(total(&find(&h, "h_bucket", &[("le", "2"), ("m", "put")]).value), 30.0);
    assert_eq!(total(&find(&h, "h_count", &[("m", "put")]).value), 30.0);
}

#[test]
fn histogram_thresholds_are_ordered_as_numbers() {
    let mut m = Metric::new("h".to_string(), "d".to_string(), "histogram".to_string());
    for le in ["10", "9", "+Inf", "-1", "0.5", "1e3"] {
        m.add_sample("h_bucket".to_string(), labels(&[("le", le)]), 1.0f64.to_bits(), 0);
    }
    let h = merge_metric(&m, &thresholds(&["10", "9", "+Inf", "-1", "0.5", "1e3"])).unwrap();
    let les: Vec<&str> =
        h.samples[0..6].iter().map(|s| s.labels.get("le").unwrap().as_str()).collect();
    assert_eq!(les, vec!["-1", "0.5", "9", "10", "1e3", "+Inf"]);
    for (i, s) in h.samples[0..6].iter().enumerate() {
        assert_eq!(total(&s.value), (i + 1) as f64);
    }
}

#[test]
fn computed_count_takes_the_place_of_a_written_one() {
    let mut m = Metric::new("h".to_string(), "d".to_string(), "histogram".to_string());
    m.add_sample("h_count".to_string(), labels(&[]), 99.0f64.to_bits(), 0);
    m.add_sample("h_bucket".to_string(), labels(&[("le", "1")]), 4.0f64.to_bits(), 0);
    let h = merge_metric(&m, &thresholds(&["1"])).unwrap();
    assert_eq!(h.samples.len(), 2);
    assert_eq!(total(&find(&h, "h_count", &[]).value), 4.0);
}

#[test]
fn threshold_that_the_table_lacks_is_corruption() {
    let mut m = Metric::new("h".to_string(), "d".to_string(), "histogram".to_string());
    m.add_sample("h_bucket".to_string(), labels(&[("le", "abc")]), 4.0f64.to_bits(), 0);
    let r = merge_metric(&m, &thresholds(&["1"]));
    assert!(matches!(r, Err(MergeError::DataCorruption(Corruption::InvalidThreshold))));
    let r = accumulate_metrics(vec![m], &vec![]);
    assert!(matches!(r, Err(MergeError::DataCorruption(Corruption::InvalidThreshold))));
}

#[test]
fn le_is_a_label_like_any_other_outside_histograms() {
    let m = metric("counter", &[("c", &[("le", "1")], 1.0), ("c", &[("le", "1")], 2.0)]);
    let merged = merge(&m);
    assert_eq!(merged.samples.len(), 1);
    assert_eq!(total(&find(&merged, "c", &[("le", "1")]).value), 3.0);
}

#[test]
fn accumulator_takes_samples_one_by_one() {
    let mut acc = Accumulator::new(Policy::Sum);
    for (pid, v) in [("1", 1.0f64), ("2", 2.0), ("3", 4.0)] {
        acc.accumulate(&Sample {
            name: "g".to_string(),
            labels: labels(&[("pid", pid)]),
            timestamp: 0,
            value: v.to_bits(),
        });
    }
    let (series, groups) = acc.into_parts();
    assert!(groups.is_empty());
    assert_eq!(series.len(), 1);
    assert_eq!(series[0].terms, vec![1.0f64.to_bits(), 2.0f64.to_bits(), 4.0f64.to_bits()]);
    assert_eq!(series[0].labels.len(), 0);
    let (series, _) = accumulate_samples(Policy::Counter, &vec![]).into_parts();
    assert!(series.is_empty());
}

#[test]
fn metrics_are_merged_each_for_itself() {
    let a = metric("counter", &[("a_total", &[], 1.0), ("a_total", &[], 2.0)]);
    let mut b = gauge("max", &[("g", &[("pid", "1")], 1.0, 0.0), ("g", &[("pid", "2")], 3.0, 0.0)]);
    b.name = "g".to_string();
    let merged = accumulate_metrics(vec![a, b], &vec![]).unwrap();
    assert_eq!(merged.len(), 2);
    assert_eq!(merged[0].name, "m");
    assert_eq!(total(&merged[0].samples[0].value), 3.0);
    assert_eq!(merged[1].name, "g");
    assert_eq!(total(&merged[1].samples[0].value), 3.0);
    assert!(accumulate_metrics(vec![], &vec![]).unwrap().is_empty());
}

#[test]
fn merge_needs_the_thresholds_that_are_listed_and_no_others() {
    let build = || {
        let mut m = Metric::new("h".to_string(), "d".to_string(), "histogram".to_string());
        for (method, le) in [("get", "1"), ("put", "2.5"), ("get", "+Inf"), ("put", "1")] {
            m.add_sample(
                "h_bucket".to_string(),
                labels(&[("m", method), ("le", le)]),
                1.0f64.to_bits(),
                0,
            );
        }
        let mut c = Metric::new("c".to_string(), "d".to_string(), "counter".to_string());
        c.add_sample("c_total".to_string(), labels(&[("le", "x")]), 1.0f64.to_bits(), 0);
        vec![c, m]
    };
    let listed = histogram_thresholds(&build());
    assert_eq!(listed, vec!["1", "2.5", "+Inf", "1"]);
    let full: Vec<&str> = listed.iter().map(|s| s.as_str()).collect();
    assert!(accumulate_metrics(build(), &thresholds(&full)).is_ok());
    for lacking in ["1", "2.5", "+Inf"] {
        let rest: Vec<&str> = full.iter().copied().filter(|t| *t != lacking).collect();
        let r = accumulate_metrics(build(), &thresholds(&rest));
        assert!(matches!(r, Err(MergeError::DataCorruption(Corruption::InvalidThreshold))));
    }
}

#[test]
fn first_entry_of_the_table_counts() {
    let mut m = Metric::new("h".to_string(), "d".to_string(), "histogram".to_string());
    m.add_sample("h_bucket".to_string(), labels(&[("le", "a")]), 1.0f64.to_bits(), 0);
    m.add_sample("h_bucket".to_string(), labels(&[("le", "b")]), 2.0f64.to_bits(), 0);
    let table = vec![
        Threshold { text: "a".to_string(), bits: 2.0f64.to_bits() },
        Threshold { text: "b".to_string(), bits: 1.0f64.to_bits() },
        Threshold { text: "a".to_string(), bits: 0.0f64.to_bits() },
    ];
    let h = merge_metric(&m, &table).unwrap();
    let les: Vec<&str> =
        h.samples[0..2].iter().map(|s| s.labels.get("le").unwrap().as_str()).collect();
    assert_eq!(les, vec!["b", "a"]);
}

#[test]
fn thresholds_of_one_number_keep_their_order() {
    let mut m = Metric::new("h".to_string(), "d".to_string(), "histogram".to_string());
    for le in ["1.0", "0", "1", "1e0"] {
        m.add_sample("h_bucket".to_string(), labels(&[("le", le)]), 1.0f64.to_bits(), 0);
    }
    let h = merge_metric(&m, &thresholds(&["1.0", "0", "1", "1e0"])).unwrap();
    let les: Vec<&str> =
        h.samples[0..4].iter().map(|s| s.labels.get("le").unwrap().as_str()).collect();
    assert_eq!(les, vec!["0", "1.0", "1", "1e0"]);
}

#[test]
fn least_of_the_two_zeros_is_the_first() {
    let m = gauge("min", &[("g", &[("pid", "1")], 0.0, 0.0), ("g", &[("pid", "2")], -0.0, 0.0)]);
    assert_eq!(find(&merge(&m), "g", &[]).value, vec![vec![0.0f64.to_bits()]]);
    let m = gauge("min", &[("g", &[("pid", "1")], -0.0, 0.0), ("g", &[("pid", "2")], 0.0, 0.0)]);
    assert_eq!(find(&merge(&m), "g", &[]).value, vec![vec![(-0.0f64).to_bits()]]);
}

#[test]
fn what_is_no_number_is_never_less_or_greater() {
    let nan = f64::NAN;
    let m = gauge("min", &[("g", &[("pid", "1")], nan, 0.0), ("g", &[("pid", "2")], 1.0, 0.0)]);
    assert_eq!(find(&merge(&m), "g", &[]).value, vec![vec![nan.to_bits()]]);
    let m = gauge("max", &[("g", &[("pid", "1")], 1.0, 0.0), ("g", &[("pid", "2")], nan, 0.0)]);
    assert_eq!(find(&merge(&m), "g", &[]).value, vec![vec![1.0f64.to_bits()]]);
}
