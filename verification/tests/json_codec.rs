use surreal_value::value::{Entry, Value};

#[test]
fn json_object_round_trip_compact() {
    let v = Value::from_json_string(String::from("{\"a\":1}")).unwrap();
    assert_eq!(
        v,
        Value::Object(vec![Entry { key: String::from("a"), value: Value::Int(1) }])
    );
    assert_eq!(v.json(false), "{\"a\":1}");
}

#[test]
fn json_number_subtypes() {
    assert_eq!(Value::from_json_string(String::from("1")).unwrap(), Value::Int(1));
    assert_eq!(Value::from_json_string(String::from("-7")).unwrap(), Value::Int(-7));
    assert_eq!(
        Value::from_json_string(String::from("1.5")).unwrap(),
        Value::Float(String::from("1.5"))
    );
    assert_eq!(
        Value::from_json_string(String::from("2e10")).unwrap(),
        Value::Float(String::from("2e10"))
    );
    assert_eq!(
        Value::from_json_string(String::from("-9223372036854775808")).unwrap(),
        Value::Int(i64::MIN)
    );
    assert_eq!(
        Value::from_json_string(String::from("9223372036854775807")).unwrap(),
        Value::Int(i64::MAX)
    );
    assert_eq!(
        Value::from_json_string(String::from("9223372036854775808")).unwrap(),
        Value::Decimal(String::from("9223372036854775808"))
    );
}

#[test]
fn json_string_escapes() {
    assert_eq!(
        Value::from_json_string(String::from("\"\\u0041\\n\\\"\\\\\"")).unwrap(),
        Value::Strand(String::from("A\n\"\\"))
    );
    assert_eq!(
        Value::from_json_string(String::from("\"\\ud83d\\ude00\"")).unwrap(),
        Value::Strand(String::from("\u{1F600}"))
    );
}

#[test]
fn json_whitespace_and_nesting() {
    let v = Value::from_json_string(String::from(" { \"a\" : [ 1 , null , true ] } ")).unwrap();
    assert_eq!(
        v,
        Value::Object(vec![Entry {
            key: String::from("a"),
            value: Value::Array(vec![Value::Int(1), Value::Null, Value::Bool(true)]),
        }])
    );
}

#[test]
fn invalid_json_is_rejected() {
    for bad in ["", "{", "[1,", "tru", "\"abc", "{\"a\"1}", "nullx", "1 2", "\"\\ud83d\"", "+5"] {
        assert!(Value::from_json_string(String::from(bad)).is_err(), "accepted: {bad}");
    }
}

#[test]
fn json_emit_parse_agrees_with_reference_parser() {
    let t = "{\"a\":1,\"b\":[1.5,\"x\",null,false],\"c\":{\"d\":\"\\u0041\"}}";
    let v = Value::from_json_string(String::from(t)).unwrap();
    let compact = v.json(false);
    let pretty = v.json(true);
    let a: serde_json::Value = serde_json::from_str(t).unwrap();
    let b: serde_json::Value = serde_json::from_str(&compact).unwrap();
    let c: serde_json::Value = serde_json::from_str(&pretty).unwrap();
    assert_eq!(a, b);
    assert_eq!(a, c);
    // Re-parsing our own output yields the same Value.
    assert_eq!(Value::from_json_string(compact).unwrap(), v);
    assert_eq!(Value::from_json_string(pretty).unwrap(), v);
}

#[test]
fn json_downgrades_are_strings() {
    assert_eq!(Value::Bytes(vec![222, 173]).json(false), "\"dead\"");
    assert_eq!(Value::Duration(3, 0).json(false), "\"3s\"");
    assert_eq!(
        Value::Thing(String::from("person"), String::from("one")).json(false),
        "\"person:one\""
    );
    assert_eq!(Value::Query(String::from("SELECT 1")).json(false), "\"SELECT 1\"");
    assert_eq!(Value::Float(String::from("inf")).json(false), "\"inf\"");
}

#[test]
fn json_pretty_layout() {
    let v = Value::from_json_string(String::from("{\"a\":[1,2]}")).unwrap();
    assert_eq!(v.json(true), "{\n\t\"a\": [\n\t\t1,\n\t\t2\n\t]\n}");
}
