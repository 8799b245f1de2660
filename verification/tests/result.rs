use plog::error::Error;
use plog::render::FloatText;
use plog::result::{Fields, Value};

fn shown(v: &Value) -> String {
    let texts: Vec<FloatText> = v
        .floats()
        .into_iter()
        .map(|bits| FloatText {
            bits,
            display: format!("{}", f64::from_bits(bits)),
            debug: format!("{:?}", f64::from_bits(bits)),
        })
        .collect();
    v.display(&texts)
}

fn quoted(v: &Value) -> String {
    let texts: Vec<FloatText> = v
        .floats()
        .into_iter()
        .map(|bits| FloatText {
            bits,
            display: format!("{}", f64::from_bits(bits)),
            debug: format!("{:?}", f64::from_bits(bits)),
        })
        .collect();
    v.debug(&texts)
}

fn sample() -> Value {
    let mut fields = Fields::new();
    fields.insert("x".to_string(), Value::Float(2.0f64.to_bits()));
    fields.insert("y".to_string(), Value::Str("a\"b".to_string()));
    fields.insert("z".to_string(), Value::Bytes(vec![1, 255]));
    Value::Array(vec![
        Value::Struct(fields),
        Value::UnsignedInteger(u64::MAX),
        Value::Boolean(false),
        Value::Null,
    ])
}

#[test]
fn display_integer() {
    assert_eq!(shown(&Value::Integer(-42)), "-42");
}

#[test]
fn display_bytes() {
    assert_eq!(shown(&Value::Bytes(vec![0xde, 0xad])), "de ad");
}

#[test]
fn display_null() {
    assert_eq!(shown(&Value::Null), "null");
}

#[test]
fn display_nested() {
    assert_eq!(
        shown(&sample()),
        "[{x: 2, y: a\"b, z: 01 ff}, 18446744073709551615, false, null]"
    );
    assert_eq!(shown(&Value::Integer(i64::MIN)), "-9223372036854775808");
    assert_eq!(shown(&Value::Array(vec![])), "[]");
    assert_eq!(shown(&Value::Struct(Fields::new())), "{}");
}

#[test]
fn quotations() {
    assert_eq!(
        quoted(&sample()),
        "Array([Struct({\"x\": Float(2.0), \"y\": Str(\"a\\\"b\"), \"z\": Bytes([1, 255])}), UnsignedInteger(18446744073709551615), Boolean(false), Null])"
    );
    assert_eq!(quoted(&Value::Integer(-5)), "Integer(-5)");
}

#[test]
fn floats_are_listed_in_order() {
    let v = Value::Array(vec![Value::Float(7), Value::Null, Value::Float(3)]);
    assert_eq!(v.floats(), vec![7, 3]);
}

#[test]
fn what_was_put_is_found() {
    let mut fields = Fields::new();
    fields.insert("a".to_string(), Value::Integer(1));
    fields.insert("b".to_string(), Value::Integer(2));
    fields.insert("a".to_string(), Value::Integer(3));
    assert_eq!(fields.len(), 2);
    assert_eq!(*fields.get("a").unwrap(), Value::Integer(3));
    assert_eq!(*fields.get("b").unwrap(), Value::Integer(2));
    assert!(fields.get("c").is_none());
    assert_eq!(fields.name_at(0), "a");
    assert_eq!(*fields.value_at(1), Value::Integer(2));
}

#[test]
fn copies_are_equal() {
    let v = sample();
    assert_eq!(v.clone(), v);
}

#[test]
fn equality_of_values() {
    let mut one = Fields::new();
    one.insert("a".to_string(), Value::Integer(1));
    one.insert("b".to_string(), Value::Null);
    let mut other = Fields::new();
    other.insert("b".to_string(), Value::Null);
    other.insert("a".to_string(), Value::Integer(1));
    assert_eq!(Value::Struct(one.clone()), Value::Struct(other.clone()));
    other.insert("c".to_string(), Value::Null);
    assert_ne!(Value::Struct(one), Value::Struct(other));
    assert_ne!(Value::Integer(1), Value::UnsignedInteger(1));
    assert_eq!(Value::Float(0.0f64.to_bits()), Value::Float((-0.0f64).to_bits()));
    assert_ne!(Value::Float(f64::NAN.to_bits()), Value::Float(f64::NAN.to_bits()));
    assert_ne!(Value::Array(vec![Value::Null]), Value::Array(vec![]));
}

#[test]
fn error_texts() {
    let none: Vec<FloatText> = vec![];
    assert_eq!(Error::Io("a".to_string()).message(&none), "IO error: a");
    assert_eq!(Error::Regex("a".to_string()).message(&none), "Regex error: a");
    assert_eq!(Error::HexDecode("a".to_string()).message(&none), "Hex decode error: a");
    assert_eq!(Error::Protocol("a".to_string()).message(&none), "Protocol error: a");
    assert_eq!(
        Error::ProtocolValue("found ".to_string(), Value::Null).message(&none),
        "Protocol error: found Null"
    );
}
