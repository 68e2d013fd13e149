use prometheus_client_python_speedups::labels::Labels;

fn labels(pairs: &[(&str, &str)]) -> Labels {
    let mut l = Labels::new();
    for (k, v) in pairs {
        l.insert(k.to_string(), v.to_string());
    }
    l
}

#[test]
fn new_labels_are_empty() {
    let l = Labels::new();
    assert_eq!(l.len(), 0);
    assert!(l.get("a").is_none());
}

#[test]
fn insert_gives_and_replaces() {
    let mut l = labels(&[("a", "1"), ("b", "2")]);
    assert_eq!(l.len(), 2);
    assert_eq!(l.get("a").unwrap(), "1");
    assert_eq!(l.get("b").unwrap(), "2");
    l.insert("a".to_string(), "3".to_string());
    assert_eq!(l.len(), 2);
    assert_eq!(l.get("a").unwrap(), "3");
    assert_eq!(l.name_at(0), "a");
    assert_eq!(l.value_at(0), "3");
}

#[test]
fn remove_takes_one_label_away() {
    let mut l = labels(&[("a", "1"), ("pid", "7"), ("b", "2")]);
    l.remove("pid");
    assert_eq!(l.len(), 2);
    assert!(l.get("pid").is_none());
    assert_eq!(l.get("b").unwrap(), "2");
    l.remove("pid");
    assert_eq!(l.len(), 2);
}

#[test]
fn same_does_not_look_at_the_order() {
    let a = labels(&[("a", "1"), ("b", "2")]);
    let b = labels(&[("b", "2"), ("a", "1")]);
    assert!(a.same(&b));
    assert!(b.same(&a));
    assert!(a.same(&a.clone()));
    assert!(!a.same(&labels(&[("a", "1")])));
    assert!(!labels(&[("a", "1")]).same(&a));
    assert!(!a.same(&labels(&[("a", "1"), ("b", "3")])));
    assert!(!a.same(&labels(&[("a", "1"), ("c", "2")])));
    assert!(Labels::new().same(&Labels::new()));
}
