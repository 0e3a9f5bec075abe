use surreal_value::value::{Entry, Value};

#[test]
fn format_compact_object() {
    let v = Value::Object(vec![Entry { key: String::from("test"), value: Value::Bool(true) }]);
    assert_eq!(v.format(false), "{ test: true }");
}

#[test]
fn format_scalars() {
    assert_eq!(Value::Null.format(false), "NULL");
    assert_eq!(Value::Int(-5).format(false), "-5");
    assert_eq!(Value::Int(i64::MIN).format(false), "-9223372036854775808");
    assert_eq!(Value::Float(String::from("1.5")).format(false), "1.5");
    assert_eq!(Value::Strand(String::from("a\"b")).format(false), "\"a\\\"b\"");
    assert_eq!(Value::Bytes(vec![0, 255]).format(false), "b\"00ff\"");
    assert_eq!(Value::Duration(3, 500).format(false), "3s500ns");
    assert_eq!(Value::Duration(0, 0).format(false), "0s");
    assert_eq!(Value::Thing(String::from("person"), String::from("one")).format(false), "person:one");
    assert_eq!(Value::Query(String::from("SELECT 1")).format(false), "(SELECT 1)");
}

#[test]
fn format_scalars_ignore_pretty() {
    for v in [Value::Null, Value::Int(7), Value::Strand(String::from("x"))] {
        assert_eq!(v.format(true), v.format(false));
    }
}

#[test]
fn format_pretty_indents_with_tabs() {
    let v = Value::Object(vec![Entry {
        key: String::from("a"),
        value: Value::Array(vec![Value::Int(1), Value::Int(2)]),
    }]);
    assert_eq!(v.format(true), "{\n\ta: [\n\t\t1,\n\t\t2\n\t]\n}");
    assert_eq!(v.format(false), "{ a: [1, 2] }");
}

#[test]
fn format_quotes_non_identifier_keys() {
    let v = Value::Object(vec![Entry { key: String::from("two words"), value: Value::Int(1) }]);
    assert_eq!(v.format(false), "{ \"two words\": 1 }");
}

#[test]
fn format_empty_composites() {
    assert_eq!(Value::Array(vec![]).format(true), "[]");
    assert_eq!(Value::Object(vec![]).format(false), "{}");
}

#[test]
fn pretty_and_compact_parse_to_same_value() {
    // The engine's parse of both renderings agrees: the textual
    // round-trip seen through the reference grammar.
    let v = Value::Object(vec![
        Entry { key: String::from("test"), value: Value::Bool(true) },
        Entry {
            key: String::from("list"),
            value: Value::Array(vec![Value::Int(1), Value::Strand(String::from("x"))]),
        },
    ]);
    let a = surrealdb_core::syn::value(&v.format(false)).unwrap();
    let b = surrealdb_core::syn::value(&v.format(true)).unwrap();
    assert_eq!(a, b);
}

#[test]
fn format_parse_format_is_stable() {
    let t = "{ test: true }";
    let first = surrealdb_core::syn::value(t).unwrap();
    let v = Value::Object(vec![Entry { key: String::from("test"), value: Value::Bool(true) }]);
    let again = surrealdb_core::syn::value(&v.format(false)).unwrap();
    assert_eq!(first, again);
}
