use tracing_gui::json::parse_json_message;
use tracing_gui::value::Value;

#[test]
fn test_parse_json_message_no_spans() {
    let input = r###"{"timestamp":"2022-02-15T18:47:10.821315Z","level":"INFO","fields":{"message":"preparing to shave yaks","number_of_yaks":3},"target":"fmt_json"}"###;

    let _json_message = parse_json_message(input).unwrap();
}

#[test]
fn test_parse_json_message_spans() {
    let input = r###"{"timestamp":"2022-02-15T18:47:10.821495Z","level":"TRACE","fields":{"message":"hello! I'm gonna shave a yak","excitement":"yay!"},"target":"fmt_json::yak_shave","spans":[{"yaks":3,"name":"shaving_yaks"},{"yak":1,"name":"shave"}]}"###;

    let _json_message = parse_json_message(input).unwrap();
}

#[test]
fn test_parse_json_message_dupe_name() {
    let input = r###"{"timestamp":"2022-02-15T18:47:10.821495Z","level":"TRACE","fields":{"message":"hello! I'm gonna shave a yak","excitement":"yay!"},"target":"fmt_json::yak_shave","spans":[{"name": "real_name", "yaks":3,"name":"shaving_yaks"}]}"###;

    let json_message = parse_json_message(input).unwrap();
    assert_eq!(
        &json_message.spans[0].vals[0],
        &("name".to_owned(), Value::S("real_name".to_owned()))
    );
    assert_eq!(
        &json_message.spans[0].vals[1],
        &("yaks".to_owned(), Value::I(3))
    );
    assert_eq!(
        &json_message.spans[0].vals[2],
        &("name".to_owned(), Value::S("shaving_yaks".to_owned()))
    );
}

#[test]
fn parse_basic_record_fields() {
    let input = r#"{"timestamp":"t1","level":"INFO","fields":{"message":"m1"},"target":"a"}"#;
    let rec = parse_json_message(input).unwrap();
    assert_eq!(rec.timestamp, "t1");
    assert_eq!(rec.level, "INFO");
    assert_eq!(rec.target, "a");
    assert_eq!(rec.fields.vals.len(), 1);
    assert_eq!(
        rec.fields.vals[0],
        ("message".to_owned(), Value::S("m1".to_owned()))
    );
    assert!(rec.spans.is_empty());
}

#[test]
fn parse_skips_unknown_fields() {
    let input = r#"{"timestamp":"t","level":"WARN","extra":[1,{"a":null},"x"],"fields":{},"target":"a","more":null}"#;
    let rec = parse_json_message(input).unwrap();
    assert_eq!(rec.level, "WARN");
    assert!(rec.fields.vals.is_empty());
}

#[test]
fn parse_string_escapes() {
    let input = r#"{"timestamp":"t","level":"INFO","fields":{"message":"a\nb\tA\\"},"target":"a"}"#;
    let rec = parse_json_message(input).unwrap();
    assert_eq!(
        rec.fields.vals[0],
        ("message".to_owned(), Value::S("a\nb\tA\\".to_owned()))
    );
}

#[test]
fn parse_numbers_integer_and_float() {
    let input = r#"{"timestamp":"t","level":"INFO","fields":{"a":3,"b":-7,"c":1.5,"d":1e3,"e":9223372036854775807,"f":9223372036854775808,"g":-9223372036854775808},"target":"a"}"#;
    let rec = parse_json_message(input).unwrap();
    let vals = &rec.fields.vals;
    assert_eq!(vals[0].1, Value::I(3));
    assert_eq!(vals[1].1, Value::I(-7));
    match &vals[2].1 {
        Value::F(f) => {
            assert_eq!(f.bits, (1.5f64).to_bits());
            assert_eq!(f.text, "1.5");
        }
        other => panic!("expected a float, got {:?}", other),
    }
    match &vals[3].1 {
        Value::F(f) => assert_eq!(f.bits, (1000.0f64).to_bits()),
        other => panic!("expected a float, got {:?}", other),
    }
    assert_eq!(vals[4].1, Value::I(i64::MAX));
    match &vals[5].1 {
        Value::F(f) => assert_eq!(f.bits, (9223372036854775808.0f64).to_bits()),
        other => panic!("expected a float, got {:?}", other),
    }
    assert_eq!(vals[6].1, Value::I(i64::MIN));
}

#[test]
fn parse_negative_zero_is_float() {
    let input = r#"{"timestamp":"t","level":"INFO","fields":{"z":-0},"target":"a"}"#;
    let rec = parse_json_message(input).unwrap();
    match &rec.fields.vals[0].1 {
        Value::F(f) => assert_eq!(f.bits, (-0.0f64).to_bits()),
        other => panic!("expected a float, got {:?}", other),
    }
}

#[test]
fn parse_rejects_malformed_lines() {
    assert!(parse_json_message("{not json").is_none());
    assert!(parse_json_message("").is_none());
    assert!(parse_json_message("null").is_none());
    // a required field is missing
    assert!(parse_json_message(r#"{"timestamp":"t","level":"INFO","fields":{}}"#).is_none());
    // a required field appears twice
    assert!(parse_json_message(
        r#"{"timestamp":"t","timestamp":"u","level":"INFO","fields":{},"target":"a"}"#
    )
    .is_none());
    // a field value of an unsupported kind
    assert!(parse_json_message(
        r#"{"timestamp":"t","level":"INFO","fields":{"x":null},"target":"a"}"#
    )
    .is_none());
    // trailing content after the record
    assert!(parse_json_message(
        r#"{"timestamp":"t","level":"INFO","fields":{},"target":"a"} extra"#
    )
    .is_none());
    // a leading-zero number is not grammatical
    assert!(parse_json_message(
        r#"{"timestamp":"t","level":"INFO","fields":{"x":01},"target":"a"}"#
    )
    .is_none());
}

#[test]
fn parse_allows_surrounding_whitespace() {
    let input = "  {\"timestamp\":\"t\",\"level\":\"INFO\",\"fields\":{},\"target\":\"a\"}  ";
    assert!(parse_json_message(input).is_some());
}
