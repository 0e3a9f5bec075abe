use surreal_value::value::{Entry, Value};

fn sample_value() -> Value {
    Value::Object(vec![
        Entry { key: String::from("name"), value: Value::Strand(String::from("tob\"ie\n")) },
        Entry { key: String::from("age"), value: Value::Int(-42) },
        Entry { key: String::from("score"), value: Value::Float(String::from("1.5")) },
        Entry { key: String::from("balance"), value: Value::Decimal(String::from("99999999999999999999")) },
        Entry { key: String::from("tags"), value: Value::Array(vec![
            Value::Bool(true),
            Value::Null,
            Value::Bytes(vec![0, 255, 16]),
            Value::Duration(3, 500),
            Value::Thing(String::from("person"), String::from("one")),
            Value::Query(String::from("SELECT * FROM person")),
        ]) },
    ])
}

#[test]
fn binary_round_trip_nested() {
    let v = sample_value();
    let bytes = v.to_binary().unwrap();
    let back = Value::from_binary(&bytes).unwrap();
    assert_eq!(back, v);
}

#[test]
fn binary_round_trip_scalars() {
    for v in [
        Value::Null,
        Value::Bool(false),
        Value::Bool(true),
        Value::Int(i64::MIN),
        Value::Int(i64::MAX),
        Value::Int(0),
        Value::Strand(String::from("")),
        Value::Strand(String::from("héllo \u{1F600}")),
        Value::Bytes(vec![]),
        Value::Duration(0, 0),
        Value::Array(vec![]),
        Value::Object(vec![]),
    ] {
        let bytes = v.to_binary().unwrap();
        assert_eq!(Value::from_binary(&bytes).unwrap(), v);
    }
}

#[test]
fn binary_encoding_is_canonical() {
    let v = sample_value();
    let bytes = v.to_binary().unwrap();
    let back = Value::from_binary(&bytes).unwrap();
    let again = back.to_binary().unwrap();
    assert_eq!(again, bytes);
}

#[test]
fn truncated_binary_is_rejected() {
    let v = sample_value();
    let bytes = v.to_binary().unwrap();
    for cut in [0, 1, bytes.len() / 2, bytes.len() - 1] {
        let t: Vec<u8> = bytes[..cut].to_vec();
        let e = Value::from_binary(&t).unwrap_err();
        assert_eq!(e.message(), "Received invalid binary data");
    }
}

#[test]
fn trailing_bytes_are_rejected() {
    let v = Value::Int(7);
    let mut bytes = v.to_binary().unwrap();
    bytes.push(0);
    assert!(Value::from_binary(&bytes).is_err());
}

#[test]
fn arbitrary_bytes_never_fault() {
    let cases: Vec<Vec<u8>> = vec![
        vec![],
        vec![255],
        vec![13],
        vec![6, 1, 0, 0, 0, 0, 0, 0, 0],
        vec![10, 255, 255, 255, 255, 255, 255, 255, 255],
        vec![3, 1, 2],
        vec![6, 1, 0, 0, 0, 0, 0, 0, 0, 0, 216, 0, 0],
        (0..64u8).collect(),
    ];
    for b in cases {
        // Every outcome must be a value or a typed error, never a panic.
        let _ = Value::from_binary(&b);
    }
}

#[test]
fn bool_tags_are_distinct() {
    let t = Value::Bool(true).to_binary().unwrap();
    let f = Value::Bool(false).to_binary().unwrap();
    assert_ne!(t, f);
    assert_eq!(t.len(), 1);
    assert_eq!(f.len(), 1);
}
