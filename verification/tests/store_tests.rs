use tracing_gui::intern::Interner;
use tracing_gui::store::{EventEntry, LogsInner, Query};
use tracing_gui::value::{IValue, Level};

fn name_of(store: &LogsInner, span: usize) -> &str {
    store.interner.strings[store.spans[span].name.id].as_str()
}

#[test]
fn interner_identity() {
    let mut interner = Interner::new();
    let a = interner.intern_str("alpha");
    let b = interner.intern_str("alpha");
    let c = interner.intern_str("beta");
    assert_eq!(a, b);
    assert_ne!(a, c);
    let rebuilt = format!("alph{}", "a");
    let a2 = interner.intern_str(&rebuilt);
    assert_eq!(a, a2);
}

#[test]
fn dedup_idempotence() {
    let mut store = LogsInner::new();
    let line = r#"{"timestamp":"t","level":"INFO","fields":{"message":"m"},"target":"a","spans":[{"name":"s"}]}"#;
    store.add_json_message(line);
    store.add_json_message(line);
    // one span was created for the context, not two; both messages landed
    // under it
    assert_eq!(store.spans.len(), 2);
    assert_eq!(store.messages.len(), 2);
    assert_eq!(
        store.spans[1].events,
        vec![EventEntry::Message(0), EventEntry::Message(1)]
    );
}

#[test]
fn order_preservation_dupe_name() {
    let mut store = LogsInner::new();
    let line = r#"{"timestamp":"t","level":"INFO","fields":{"message":"m"},"target":"a","spans":[{"name":"real_name","yaks":3,"name":"shaving_yaks"}]}"#;
    store.add_json_message(line);
    assert_eq!(store.spans.len(), 2);
    // the display name comes from the trailing "name" pair...
    assert_eq!(name_of(&store, 1), "shaving_yaks");
    // ...which is removed from the stored fields, while the first
    // occurrence and the other pair stay, in order
    let fields = &store.spans[1].fields.vals;
    assert_eq!(fields.len(), 2);
    assert_eq!(
        store.interner.strings[fields[0].0.id].as_str(),
        "name"
    );
    match &fields[0].1 {
        IValue::S(h) => assert_eq!(store.interner.strings[h.id].as_str(), "real_name"),
        other => panic!("expected a string value, got {:?}", other),
    }
    assert_eq!(store.interner.strings[fields[1].0.id].as_str(), "yaks");
    assert!(matches!(fields[1].1, IValue::I(3)));
}

#[test]
fn root_invariant_after_clear() {
    let mut store = LogsInner::new();
    store.add_json_message(
        r#"{"timestamp":"t","level":"INFO","fields":{"message":"m"},"target":"a","spans":[{"name":"s"}]}"#,
    );
    store.add_json_message(
        r#"{"timestamp":"t","level":"WARN","fields":{"message":"n"},"target":"a"}"#,
    );
    store.clear();
    assert_eq!(store.spans.len(), 1);
    assert!(store.spans[0].events.is_empty());
    assert!(store.messages.is_empty());
    let text = store.string_query(Query::All);
    assert_eq!(text.as_str(), "[<all spans>]\n");
}

#[test]
fn malformed_line_is_skipped() {
    let mut store = LogsInner::new();
    store.add_json_message(r#"{"timestamp":"t","level":"INFO","fields":{"message":"one"},"target":"a"}"#);
    store.add_json_message("{not json");
    store.add_json_message(r#"{"timestamp":"t","level":"INFO","fields":{"message":"two"},"target":"a"}"#);
    // the malformed line is dropped; the valid ones both land
    assert_eq!(store.messages.len(), 2);
    assert_eq!(store.spans.len(), 1);
}

#[test]
fn end_to_end_scenario() {
    let mut store = LogsInner::new();
    store.add_json_message(
        r#"{"timestamp":"t1","level":"INFO","fields":{"message":"m1"},"target":"a"}"#,
    );
    store.add_json_message(
        r#"{"timestamp":"t2","level":"ERROR","fields":{"message":"m2"},"target":"a","spans":[{"name":"s"}]}"#,
    );
    // root has two children in arrival order: the message, then the span
    assert_eq!(
        store.spans[0].events,
        vec![EventEntry::Message(0), EventEntry::Span(1)]
    );
    assert_eq!(store.spans[1].events, vec![EventEntry::Message(1)]);
    assert_eq!(name_of(&store, 1), "s");
    let text = store.string_query(Query::All);
    let m1 = text.find("m1").unwrap();
    let header = text.find("[s]").unwrap();
    let m2 = text.find("m2").unwrap();
    assert!(m1 < header && header < m2);
}

#[test]
fn float_values_dedup_by_bit_pattern() {
    let mut store = LogsInner::new();
    store.add_json_message(
        r#"{"timestamp":"t","level":"INFO","fields":{"message":"a"},"target":"a","spans":[{"v":1.0}]}"#,
    );
    store.add_json_message(
        r#"{"timestamp":"t","level":"INFO","fields":{"message":"b"},"target":"a","spans":[{"v":1.00}]}"#,
    );
    // 1.0 and 1.00 have the same bit pattern, so the contexts collapse
    assert_eq!(store.spans.len(), 2);
    assert_eq!(store.messages.len(), 2);
}

#[test]
fn level_parsing() {
    let mut store = LogsInner::new();
    for (raw, expect) in [
        ("ERROR", Some(Level::Error)),
        ("WARN", Some(Level::Warn)),
        ("INFO", Some(Level::Info)),
        ("DEBUG", Some(Level::Debug)),
        ("TRACE", Some(Level::Trace)),
        ("verbose", None),
    ] {
        let line = format!(
            r#"{{"timestamp":"t","level":"{}","fields":{{"message":"m"}},"target":"a"}}"#,
            raw
        );
        store.add_json_message(&line);
        assert_eq!(store.messages.last().unwrap().level, expect);
    }
}
