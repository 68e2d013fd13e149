use prometheus_client_python_speedups::error::{Corruption, MergeError};
use prometheus_client_python_speedups::key::{key_from_json, parse_key, Key, KeyCache};
use serde_json::Value;

fn text(s: &str) -> Value {
    Value::String(s.to_string())
}

fn object(members: &[(&str, Value)]) -> Value {
    let mut map = serde_json::Map::new();
    for (k, v) in members {
        map.insert(k.to_string(), v.clone());
    }
    Value::Object(map)
}

fn invalid(r: Result<Key, MergeError>) -> bool {
    matches!(r, Err(MergeError::DataCorruption(Corruption::InvalidKey)))
}

#[test]
fn key_is_read_from_an_array() {
    let key = parse_key(r#"["requests", "requests_total", {"path": "/", "code": "200"}, "All requests"]"#)
        .unwrap();
    assert_eq!(key.metric_name, "requests");
    assert_eq!(key.name, "requests_total");
    assert_eq!(key.help_text, "All requests");
    assert_eq!(key.labels.len(), 2);
    assert_eq!(key.labels.get("path").unwrap(), "/");
    assert_eq!(key.labels.get("code").unwrap(), "200");
}

#[test]
fn key_is_read_from_an_object() {
    let key = parse_key(
        r#"{"help_text": "h", "labels": {}, "name": "n", "metric_name": "m"}"#,
    )
    .unwrap();
    assert_eq!(key.metric_name, "m");
    assert_eq!(key.name, "n");
    assert_eq!(key.help_text, "h");
    assert_eq!(key.labels.len(), 0);
}

#[test]
fn text_that_is_no_json_is_no_key() {
    assert!(invalid(parse_key("")));
    assert!(invalid(parse_key("[\"a\", \"b\", {}, \"c\"")));
    assert!(invalid(parse_key("[\"a\", \"b\", {}, \"c\"] x")));
    assert!(invalid(parse_key("not json")));
}

#[test]
fn json_of_another_shape_is_no_key() {
    assert!(invalid(parse_key("null")));
    assert!(invalid(parse_key("\"a\"")));
    assert!(invalid(parse_key("[\"a\", \"b\", {}]")));
    assert!(invalid(parse_key("[\"a\", \"b\", {}, \"c\", \"d\"]")));
    assert!(invalid(parse_key("[\"a\", 1, {}, \"c\"]")));
    assert!(invalid(parse_key("[\"a\", \"b\", [], \"c\"]")));
    assert!(invalid(parse_key("[\"a\", \"b\", {\"l\": 1}, \"c\"]")));
    assert!(invalid(parse_key("[\"a\", \"b\", {}, null]")));
    assert!(invalid(parse_key(r#"{"metric_name": "m", "name": "n", "labels": {}}"#)));
    assert!(invalid(parse_key(
        r#"{"metric_name": "m", "name": "n", "labels": {}, "help": "h"}"#
    )));
    assert!(invalid(parse_key(
        r#"{"metric_name": "m", "name": "n", "labels": {}, "help_text": "h", "more": "x"}"#
    )));
}

#[test]
fn cache_gives_what_parsing_gives() {
    let mut cache = KeyCache::new();
    let text = r#"["m", "n", {"a": "b"}, "h"]"#;
    for _ in 0..3 {
        let key = cache.decode(text).unwrap();
        assert_eq!(key.metric_name, "m");
        assert_eq!(key.name, "n");
        assert_eq!(key.labels.get("a").unwrap(), "b");
        assert_eq!(key.help_text, "h");
    }
    let other = cache.decode(r#"["m2", "n2", {}, "h2"]"#).unwrap();
    assert_eq!(other.metric_name, "m2");
    assert!(invalid(cache.decode("oops")));
    assert!(invalid(cache.decode("oops")));
    assert_eq!(cache.decode(text).unwrap().name, "n");
}

#[test]
fn key_of_a_document_that_is_an_array() {
    let labels = object(&[("a", text("1")), ("b", text("2"))]);
    let document = Value::Array(vec![text("m"), text("n"), labels, text("h")]);
    let key = key_from_json(&document).unwrap();
    assert_eq!(key.metric_name, "m");
    assert_eq!(key.name, "n");
    assert_eq!(key.help_text, "h");
    assert_eq!(key.labels.len(), 2);
    assert_eq!(key.labels.get("a").unwrap(), "1");
    assert_eq!(key.labels.get("b").unwrap(), "2");
}

#[test]
fn key_of_a_document_that_is_an_object() {
    let document = object(&[
        ("name", text("n")),
        ("labels", object(&[("l", text("v"))])),
        ("metric_name", text("m")),
        ("help_text", text("h")),
    ]);
    let key = key_from_json(&document).unwrap();
    assert_eq!(key.metric_name, "m");
    assert_eq!(key.name, "n");
    assert_eq!(key.help_text, "h");
    assert_eq!(key.labels.get("l").unwrap(), "v");
}

#[test]
fn documents_that_are_no_keys() {
    let labels = || object(&[]);
    assert!(key_from_json(&Value::Null).is_none());
    assert!(key_from_json(&Value::Bool(true)).is_none());
    assert!(key_from_json(&text("m")).is_none());
    assert!(key_from_json(&Value::Array(vec![])).is_none());
    assert!(key_from_json(&Value::Array(vec![text("m"), text("n"), labels()])).is_none());
    assert!(key_from_json(&Value::Array(vec![text("m"), text("n"), text("l"), text("h")]))
        .is_none());
    assert!(key_from_json(&Value::Array(vec![text("m"), Value::Null, labels(), text("h")]))
        .is_none());
    let bad_labels = object(&[("l", Value::Bool(false))]);
    assert!(key_from_json(&Value::Array(vec![text("m"), text("n"), bad_labels, text("h")]))
        .is_none());
    assert!(key_from_json(&object(&[
        ("name", text("n")),
        ("labels", labels()),
        ("metric_name", text("m")),
    ]))
    .is_none());
    assert!(key_from_json(&object(&[
        ("name", text("n")),
        ("labels", labels()),
        ("metric_name", text("m")),
        ("help_text", text("h")),
        ("more", text("x")),
    ]))
    .is_none());
    assert!(key_from_json(&object(&[
        ("name", text("n")),
        ("labels", labels()),
        ("metric_name", text("m")),
        ("help", text("h")),
    ]))
    .is_none());
}
