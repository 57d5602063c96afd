use std::sync::Arc;

use tracing_gui::store::{LogsInner, Query};

#[test]
fn cache_returns_identical_text_object() {
    let mut store = LogsInner::new();
    store.add_json_message(
        r#"{"timestamp":"t","level":"INFO","fields":{"message":"m"},"target":"a"}"#,
    );
    let first = store.string_query(Query::All);
    let second = store.string_query(Query::All);
    // same query, no intervening mutation: the very same allocation
    assert!(Arc::ptr_eq(&first, &second));
}

#[test]
fn cache_recomputes_on_other_query() {
    let mut store = LogsInner::new();
    store.add_json_message(
        r#"{"timestamp":"t","level":"INFO","fields":{"message":"m"},"target":"a","spans":[{"name":"s"}]}"#,
    );
    let all = store.string_query(Query::All);
    let span = store.string_query(Query::Span(1));
    assert!(!Arc::ptr_eq(&all, &span));
    let all_again = store.string_query(Query::All);
    // recomputed: equal content, but a fresh allocation
    assert_eq!(all.as_str(), all_again.as_str());
    assert!(!Arc::ptr_eq(&all, &all_again));
}

#[test]
fn message_line_formatting() {
    let mut store = LogsInner::new();
    store.add_json_message(
        r#"{"timestamp":"t","level":"ERROR","fields":{"message":"boom","k":7},"target":"a"}"#,
    );
    let text = store.string_query(Query::All);
    // header, then one message line: level column, field dump, message text
    assert_eq!(
        text.as_str(),
        "[<all spans>]\n    [ERROR] [k = 7] boom\n"
    );
}

#[test]
fn message_line_without_level_keeps_width() {
    let mut store = LogsInner::new();
    store.add_json_message(
        r#"{"timestamp":"t","level":"odd","fields":{"message":"quiet"},"target":"a"}"#,
    );
    let text = store.string_query(Query::All);
    // an absent level degrades to a blank placeholder of matching width
    assert_eq!(text.as_str(), "[<all spans>]\n            quiet\n");
}

#[test]
fn value_text_formatting() {
    let mut store = LogsInner::new();
    store.add_json_message(
        r#"{"timestamp":"t","level":"INFO","fields":{"message":"v","neg":-42,"big":9223372036854775807,"min":-9223372036854775808,"flag":true,"off":false,"ratio":2.5},"target":"a"}"#,
    );
    let text = store.string_query(Query::All);
    assert!(text.contains("[neg = -42]"));
    assert!(text.contains("[big = 9223372036854775807]"));
    assert!(text.contains("[min = -9223372036854775808]"));
    assert!(text.contains("[flag = true]"));
    assert!(text.contains("[off = false]"));
    assert!(text.contains("[ratio = 2.5]"));
}

#[test]
fn span_header_lists_fields_in_order() {
    let mut store = LogsInner::new();
    store.add_json_message(
        r#"{"timestamp":"t","level":"INFO","fields":{"message":"m"},"target":"a","spans":[{"yaks":3,"name":"shaving_yaks"}]}"#,
    );
    let text = store.string_query(Query::Span(1));
    assert_eq!(text.as_str(), "[shaving_yaks, yaks = 3]\n    [INFO ] m\n");
}

#[test]
fn decimal_text_helpers() {
    let mut s = String::new();
    tracing_gui::text::push_u64_digits(0, &mut s);
    s.push(' ');
    tracing_gui::text::push_u64_digits(12345, &mut s);
    s.push(' ');
    tracing_gui::text::push_i64_text(-42, &mut s);
    s.push(' ');
    tracing_gui::text::push_i64_text(i64::MIN, &mut s);
    assert_eq!(s, "0 12345 -42 -9223372036854775808");
}
