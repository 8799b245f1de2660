use plog::error::Error;
use plog::ksy::expr::Expr;
use plog::ksy::interp::{decode_by_type_spec, decode_root, Frame};
use plog::ksy::read::Cursor;
use plog::ksy::schema;
use plog::ksy::schema::{parse, Endian, PrimType, SwitchCase, TypeDef, TypeSpec};
use plog::render::FloatText;
use plog::result::{Fields, Value};

fn decode(source: &str, bytes: &[u8]) -> Fields {
    let schema = schema::parse(source).unwrap();
    decode_root(&schema.root, schema.endian, bytes).unwrap()
}

fn decode_failure(source: &str, bytes: &[u8]) -> String {
    let schema = schema::parse(source).unwrap();
    error_text(&decode_root(&schema.root, schema.endian, bytes).unwrap_err())
}

fn error_text(e: &Error) -> String {
    let texts: Vec<FloatText> = e
        .floats()
        .into_iter()
        .map(|bits| FloatText {
            bits,
            display: format!("{}", f64::from_bits(bits)),
            debug: format!("{:?}", f64::from_bits(bits)),
        })
        .collect();
    e.message(&texts)
}

fn field<'a>(fields: &'a Fields, name: &str) -> &'a Value {
    fields.get(name).unwrap()
}

fn unsigned(items: &[u64]) -> Value {
    Value::Array(items.iter().map(|n| Value::UnsignedInteger(*n)).collect())
}

#[test]
fn decodes_fixed_primitives_little_endian() {
    let fields = decode(
        "meta:\n  endian: le\nseq:\n  - id: a\n    type: u1\n  - id: b\n    type: u2\n  - id: c\n    type: u4\n",
        &[0x01, 0x02, 0x00, 0x03, 0x00, 0x00, 0x00],
    );
    assert_eq!(*field(&fields, "a"), Value::UnsignedInteger(1));
    assert_eq!(*field(&fields, "b"), Value::UnsignedInteger(2));
    assert_eq!(*field(&fields, "c"), Value::UnsignedInteger(3));
}

#[test]
fn decodes_big_endian() {
    let fields = decode(
        "meta:\n  endian: be\nseq:\n  - id: a\n    type: u2\n",
        &[0x01, 0x02],
    );
    assert_eq!(*field(&fields, "a"), Value::UnsignedInteger(0x0102));
}

#[test]
fn signed_integers_sign_extend() {
    let fields = decode("seq:\n  - id: a\n    type: s1\n", &[0xFF]);
    assert_eq!(*field(&fields, "a"), Value::Integer(-1));
}

#[test]
fn size_expression_references_sibling_field() {
    let fields = decode(
        "seq:\n  - id: length\n    type: u1\n  - id: payload\n    size: length\n",
        &[0x03, b'A', b'B', b'C'],
    );
    assert_eq!(*field(&fields, "payload"), Value::Bytes(vec![b'A', b'B', b'C']));
}

#[test]
fn truncated_payload_is_an_error() {
    let schema = schema::parse(
        "seq:\n  - id: length\n    type: u1\n  - id: payload\n    size: length\n",
    )
    .unwrap();
    let err = decode_root(&schema.root, schema.endian, &[0x05, b'A']).unwrap_err();
    assert!(error_text(&err).contains("unexpected end of data"));
}

#[test]
fn if_condition_skips_field() {
    let fields = decode(
        "seq:\n  - id: flag\n    type: u1\n  - id: extra\n    type: u1\n    if: flag != 0\n",
        &[0x00],
    );
    assert!(!fields.contains_key("extra"));
}

#[test]
fn if_condition_includes_field_when_true() {
    let fields = decode(
        "seq:\n  - id: flag\n    type: u1\n  - id: extra\n    type: u1\n    if: flag != 0\n",
        &[0x01, 0x09],
    );
    assert_eq!(*field(&fields, "extra"), Value::UnsignedInteger(9));
}

#[test]
fn repeat_expr_reads_fixed_count() {
    let fields = decode(
        "seq:\n  - id: count\n    type: u1\n  - id: items\n    type: u1\n    repeat: expr\n    repeat-expr: count\n",
        &[0x03, 1, 2, 3],
    );
    assert_eq!(
        *field(&fields, "items"),
        Value::Array(vec![
            Value::UnsignedInteger(1),
            Value::UnsignedInteger(2),
            Value::UnsignedInteger(3)
        ])
    );
}

#[test]
fn repeat_eos_reads_until_end_of_data() {
    let fields = decode(
        "seq:\n  - id: items\n    type: u1\n    repeat: eos\n",
        &[1, 2, 3],
    );
    assert_eq!(
        *field(&fields, "items"),
        Value::Array(vec![
            Value::UnsignedInteger(1),
            Value::UnsignedInteger(2),
            Value::UnsignedInteger(3)
        ])
    );
}

#[test]
fn repeat_until_stops_on_condition() {
    let fields = decode(
        "seq:\n  - id: items\n    type: u1\n    repeat: until\n    repeat-until: _ == 0\n",
        &[5, 6, 0, 9, 9],
    );
    assert_eq!(
        *field(&fields, "items"),
        Value::Array(vec![
            Value::UnsignedInteger(5),
            Value::UnsignedInteger(6),
            Value::UnsignedInteger(0),
        ])
    );
}

#[test]
fn nested_named_type_shares_stream() {
    let fields = decode(
        "seq:\n  - id: header\n    type: header\n  - id: rest\n    type: u1\ntypes:\n  header:\n    seq:\n      - id: magic\n        type: u1\n",
        &[0xAA, 0x42],
    );
    let Value::Struct(header) = field(&fields, "header") else {
        panic!("expected struct");
    };
    assert_eq!(*field(header, "magic"), Value::UnsignedInteger(0xAA));
    assert_eq!(*field(&fields, "rest"), Value::UnsignedInteger(0x42));
}

#[test]
fn nested_named_type_with_size_bounds_substream() {
    let schema = schema::parse(
        "seq:\n  - id: header\n    type: header\n    size: 1\n  - id: rest\n    type: u1\ntypes:\n  header:\n    seq:\n      - id: magic\n        type: u2\n",
    )
    .unwrap();
    let err = decode_root(&schema.root, schema.endian, &[0xAA, 0x99]).unwrap_err();
    assert!(error_text(&err).contains("unexpected end of data"));
}

#[test]
fn switch_type_picks_matching_case() {
    let fields = decode(
        "seq:\n  - id: kind\n    type: u1\n  - id: body\n    type:\n      switch-on: kind\n      cases:\n        1: u1\n        2: u2\n",
        &[0x02, 0x34, 0x12],
    );
    assert_eq!(*field(&fields, "body"), Value::UnsignedInteger(0x1234));
}

#[test]
fn switch_type_default_case() {
    let fields = decode(
        "seq:\n  - id: kind\n    type: u1\n  - id: body\n    type:\n      switch-on: kind\n      cases:\n        1: u1\n        _: u2\n",
        &[0x09, 0x34, 0x12],
    );
    assert_eq!(*field(&fields, "body"), Value::UnsignedInteger(0x1234));
}

#[test]
fn contents_magic_matches() {
    let fields = decode(
        "seq:\n  - id: magic\n    contents: [0xAA, 0x55]\n",
        &[0xAA, 0x55],
    );
    assert_eq!(*field(&fields, "magic"), Value::Bytes(vec![0xAA, 0x55]));
}

#[test]
fn contents_magic_mismatch_is_an_error() {
    let schema = schema::parse("seq:\n  - id: magic\n    contents: [0xAA, 0x55]\n").unwrap();
    let err = decode_root(&schema.root, schema.endian, &[0xAA, 0x00]).unwrap_err();
    assert!(error_text(&err).contains("magic bytes mismatch"));
}

#[test]
fn enum_maps_integer_to_symbol() {
    let fields = decode(
        "seq:\n  - id: cmd\n    type: u1\n    enum: command\nenums:\n  command:\n    1: start\n    2: stop\n",
        &[0x02],
    );
    assert_eq!(*field(&fields, "cmd"), Value::Str("stop".to_string()));
}

#[test]
fn enum_unknown_value_keeps_integer() {
    let fields = decode(
        "seq:\n  - id: cmd\n    type: u1\n    enum: command\nenums:\n  command:\n    1: start\n",
        &[0x09],
    );
    assert_eq!(*field(&fields, "cmd"), Value::UnsignedInteger(9));
}

#[test]
fn str_type_decodes_utf8_with_size() {
    let fields = decode(
        "seq:\n  - id: name\n    type: str\n    size: 5\n    encoding: UTF-8\n",
        b"HELLO",
    );
    assert_eq!(*field(&fields, "name"), Value::Str("HELLO".to_string()));
}

#[test]
fn strz_reads_until_nul() {
    let fields = decode(
        "seq:\n  - id: name\n    type: strz\n  - id: after\n    type: u1\n",
        b"HI\x00\x07",
    );
    assert_eq!(*field(&fields, "name"), Value::Str("HI".to_string()));
    assert_eq!(*field(&fields, "after"), Value::UnsignedInteger(7));
}

#[test]
fn raw_bytes_field_without_type() {
    let fields = decode("seq:\n  - id: payload\n    size: 3\n", &[1, 2, 3]);
    assert_eq!(*field(&fields, "payload"), Value::Bytes(vec![1, 2, 3]));
}

#[test]
fn float_fields_decode() {
    let fields = decode(
        "meta:\n  endian: le\nseq:\n  - id: a\n    type: f4\n",
        &1.5f32.to_le_bytes(),
    );
    assert_eq!(*field(&fields, "a"), Value::Float(1.5f64.to_bits()));
}

#[test]
fn numbers_of_every_size() {
    let source = "seq:\n  - id: a\n    type: u8\n  - id: b\n    type: s2\n  - id: c\n    type: s4be\n  - id: d\n    type: s8\n  - id: e\n    type: f8\n";
    let mut bytes: Vec<u8> = Vec::new();
    bytes.extend(u64::MAX.to_le_bytes());
    bytes.extend((-2i16).to_le_bytes());
    bytes.extend((-70000i32).to_be_bytes());
    bytes.extend(i64::MIN.to_le_bytes());
    bytes.extend((-0.25f64).to_le_bytes());
    let fields = decode(source, &bytes);
    assert_eq!(*field(&fields, "a"), Value::UnsignedInteger(u64::MAX));
    assert_eq!(*field(&fields, "b"), Value::Integer(-2));
    assert_eq!(*field(&fields, "c"), Value::Integer(-70000));
    assert_eq!(*field(&fields, "d"), Value::Integer(i64::MIN));
    assert_eq!(*field(&fields, "e"), Value::Float((-0.25f64).to_bits()));
}

#[test]
fn fields_come_in_declaration_order() {
    let fields = decode(
        "seq:\n  - id: z\n    type: u1\n  - id: m\n    type: u1\n    if: z == 0\n  - id: a\n    type: u1\n",
        &[1, 2],
    );
    assert_eq!(fields.len(), 2);
    assert_eq!(fields.name_at(0), "z");
    assert_eq!(fields.name_at(1), "a");
}

#[test]
fn a_field_declared_twice_keeps_its_place() {
    let fields = decode(
        "seq:\n  - id: a\n    type: u1\n  - id: b\n    type: u1\n  - id: a\n    type: u1\n",
        &[1, 2, 3],
    );
    assert_eq!(fields.len(), 2);
    assert_eq!(fields.name_at(0), "a");
    assert_eq!(*field(&fields, "a"), Value::UnsignedInteger(3));
}

#[test]
fn size_eos_takes_the_rest() {
    let fields = decode(
        "seq:\n  - id: a\n    type: u1\n  - id: rest\n    size-eos: true\n",
        &[1, 2, 3],
    );
    assert_eq!(*field(&fields, "rest"), Value::Bytes(vec![2, 3]));
}

#[test]
fn strings_without_end() {
    let fields = decode("seq:\n  - id: a\n    type: strz\n", b"HI");
    assert_eq!(*field(&fields, "a"), Value::Str("HI".to_string()));
    assert_eq!(
        decode_failure("seq:\n  - id: a\n    type: str\n", b"HI"),
        "Protocol error: field `a`: `str` type needs a `size` or `size-eos`"
    );
}

#[test]
fn string_encodings() {
    let ascii = "seq:\n  - id: a\n    type: str\n    size: 2\n    encoding: ascii\n";
    assert_eq!(*field(&decode(ascii, b"ok"), "a"), Value::Str("ok".to_string()));
    assert_eq!(
        decode_failure(ascii, &[0xc3, 0xa9]),
        "Protocol error: field `a`: expected ASCII, found non-ASCII bytes"
    );
    let plain = "seq:\n  - id: a\n    type: str\n    size: 2\n";
    assert_eq!(*field(&decode(plain, &[0xc3, 0xa9]), "a"), Value::Str("\u{e9}".to_string()));
    assert_eq!(
        decode_failure(plain, &[0x41, 0xff]),
        "Protocol error: field `a`: invalid string encoding: invalid utf-8 sequence of 1 bytes from index 1"
    );
}

#[test]
fn messages_of_failed_reads() {
    assert_eq!(
        decode_failure("seq:\n  - id: a\n    type: u4\n", &[1, 2]),
        "Protocol error: unexpected end of data while reading field `a` (4 bytes needed, 2 available)"
    );
    assert_eq!(
        decode_failure("seq:\n  - id: m\n    contents: [0xAA, 0x05]\n", &[0x00, 0x0f]),
        "Protocol error: field `m`: magic bytes mismatch: expected [aa, 05], found [00, 0f]"
    );
    assert_eq!(
        decode_failure("seq:\n  - id: a\n", &[1]),
        "Protocol error: field `a`: needs a `type`, or a `size`/`size-eos` for raw bytes"
    );
    assert_eq!(
        decode_failure("seq:\n  - id: a\n    type: nothing\n", &[1]),
        "Protocol error: unknown type reference `nothing`"
    );
    assert_eq!(
        decode_failure(
            "seq:\n  - id: items\n    type: u1\n    repeat: until\n    repeat-until: _ == 0\n",
            &[5, 6]
        ),
        "Protocol error: field `items`: `repeat-until` condition never became true before end of data"
    );
    assert_eq!(
        decode_failure(
            "seq:\n  - id: k\n    type: f8\n  - id: b\n    type:\n      switch-on: k\n      cases:\n        1: u1\n",
            &2.5f64.to_le_bytes()
        ),
        "Protocol error: field `b`: no switch case matches value Float(2.5)"
    );
}

#[test]
fn a_case_without_value_is_passed_over() {
    let fields = decode(
        "seq:\n  - id: k\n    type: u1\n  - id: b\n    type:\n      switch-on: k\n      cases:\n        missing: u2\n        k: u1\n",
        &[7, 8],
    );
    assert_eq!(*field(&fields, "b"), Value::UnsignedInteger(8));
}

#[test]
fn nested_types_look_outwards() {
    let fields = decode(
        "seq:\n  - id: a\n    type: outer\ntypes:\n  outer:\n    seq:\n      - id: m\n        type: middle\n    types:\n      middle:\n        seq:\n          - id: x\n            type: sibling\n          - id: y\n            type: top\n      sibling:\n        seq:\n          - id: s\n            type: u1\n  top:\n    seq:\n      - id: t\n        type: u1\n",
        &[1, 2],
    );
    let Value::Struct(outer) = field(&fields, "a") else {
        panic!("expected struct");
    };
    let Value::Struct(middle) = field(outer, "m") else {
        panic!("expected struct");
    };
    let Value::Struct(sibling) = field(middle, "x") else {
        panic!("expected struct");
    };
    let Value::Struct(top) = field(middle, "y") else {
        panic!("expected struct");
    };
    assert_eq!(*field(sibling, "s"), Value::UnsignedInteger(1));
    assert_eq!(*field(top, "t"), Value::UnsignedInteger(2));
}

#[test]
fn own_types_come_before_those_of_the_root() {
    let fields = decode(
        "seq:\n  - id: a\n    type: outer\ntypes:\n  outer:\n    seq:\n      - id: x\n        type: t\n    types:\n      t:\n        seq:\n          - id: v\n            type: u1\n  t:\n    seq:\n      - id: v\n        type: u2\n",
        &[1, 2],
    );
    let Value::Struct(outer) = field(&fields, "a") else {
        panic!("expected struct");
    };
    let Value::Struct(t) = field(outer, "x") else {
        panic!("expected struct");
    };
    assert_eq!(*field(t, "v"), Value::UnsignedInteger(1));
}

#[test]
fn recursion_that_takes_data_ends() {
    let list = "seq:\n  - id: head\n    type: node\ntypes:\n  node:\n    seq:\n      - id: more\n        type: u1\n      - id: next\n        type: node\n        if: more != 0\n";
    let fields = decode(list, &[1, 1, 0]);
    let Value::Struct(first) = field(&fields, "head") else {
        panic!("expected struct");
    };
    let Value::Struct(second) = field(first, "next") else {
        panic!("expected struct");
    };
    let Value::Struct(third) = field(second, "next") else {
        panic!("expected struct");
    };
    assert!(!third.contains_key("next"));
}

#[test]
fn recursion_that_takes_no_data_is_an_error() {
    assert_eq!(
        decode_failure(
            "seq:\n  - id: a\n    type: loop\ntypes:\n  loop:\n    seq:\n      - id: again\n        type: loop\n",
            &[1]
        ),
        "Protocol error: type `loop` contains itself without taking data"
    );
}

#[test]
fn deep_nesting_without_data_is_fine() {
    let fields = decode(
        "seq:\n  - id: a\n    type: one\ntypes:\n  one:\n    seq:\n      - id: b\n        type: two\n  two:\n    seq:\n      - id: c\n        type: three\n  three:\n    seq:\n      - id: d\n        size: 0\n",
        &[],
    );
    assert_eq!(fields.len(), 1);
}

#[test]
fn repetition_that_takes_no_data_is_an_error() {
    assert_eq!(
        decode_failure("seq:\n  - id: a\n    size: 0\n    repeat: eos\n", &[1]),
        "Protocol error: field `a`: repeated item takes no data"
    );
    assert_eq!(
        decode_failure(
            "seq:\n  - id: a\n    size: 0\n    repeat: until\n    repeat-until: 'false'\n",
            &[1]
        ),
        "Protocol error: field `a`: repeated item takes no data"
    );
    let fields = decode("seq:\n  - id: a\n    size: 0\n    repeat: expr\n    repeat-expr: 2\n", &[]);
    assert_eq!(
        *field(&fields, "a"),
        Value::Array(vec![Value::Bytes(vec![]), Value::Bytes(vec![])])
    );
}

#[test]
fn byte_order_passes_to_nested_types() {
    let fields = decode(
        "meta:\n  endian: be\nseq:\n  - id: n\n    type: inner\n  - id: m\n    type: u2le\ntypes:\n  inner:\n    seq:\n      - id: v\n        type: u2\n",
        &[1, 2, 3, 4],
    );
    let Value::Struct(inner) = field(&fields, "n") else {
        panic!("expected struct");
    };
    assert_eq!(*field(inner, "v"), Value::UnsignedInteger(0x0102));
    assert_eq!(*field(&fields, "m"), Value::UnsignedInteger(0x0403));
}

#[test]
fn enums_of_the_root_reach_inwards() {
    let fields = decode(
        "seq:\n  - id: n\n    type: inner\ntypes:\n  inner:\n    seq:\n      - id: v\n        type: s1\n        enum: e\nenums:\n  e:\n    -1: minus\n",
        &[0xff],
    );
    let Value::Struct(inner) = field(&fields, "n") else {
        panic!("expected struct");
    };
    assert_eq!(*field(inner, "v"), Value::Str("minus".to_string()));
}

#[test]
fn repeating_to_the_end_leaves_nothing() {
    let fields = decode(
        "seq:\n  - id: a\n    type: u2\n    repeat: eos\n  - id: b\n    size-eos: true\n",
        &[1, 0, 2, 0],
    );
    assert_eq!(*field(&fields, "a"), unsigned(&[1, 2]));
    assert_eq!(*field(&fields, "b"), Value::Bytes(vec![]));
}

#[test]
fn single_precision_is_widened() {
    let source = "seq:\n  - id: a\n    type: f4\n";
    let samples = [
        0.0f32,
        -0.0,
        1.0,
        -2.75,
        f32::MIN_POSITIVE,
        f32::MIN_POSITIVE / 3.0,
        1.0e-45,
        f32::MAX,
        f32::INFINITY,
        f32::NEG_INFINITY,
    ];
    for x in samples {
        let fields = decode(source, &x.to_le_bytes());
        match field(&fields, "a") {
            Value::Float(bits) => assert_eq!(*bits, (x as f64).to_bits()),
            other => panic!("not a float: {other:?}"),
        }
    }
    let fields = decode(source, &f32::NAN.to_le_bytes());
    match field(&fields, "a") {
        Value::Float(bits) => assert!(f64::from_bits(*bits).is_nan()),
        other => panic!("not a float: {other:?}"),
    }
}

#[test]
fn only_what_is_left_counts() {
    let source = "seq:\n  - id: skip\n    type: u1\n  - id: gap\n    size: skip\n  - id: n\n    type: inner\ntypes:\n  inner:\n    seq:\n      - id: name\n        type: strz\n      - id: v\n        type: u2\n";
    let near = decode(source, b"\x00HI\x00\x01\x02");
    let far = decode(source, b"\x03abcHI\x00\x01\x02");
    assert_eq!(*field(&near, "n"), *field(&far, "n"));
}

#[test]
fn sized_types_see_only_their_bytes() {
    let source = "seq:\n  - id: n\n    type: inner\n    size: 2\ntypes:\n  inner:\n    seq:\n      - id: all\n        size-eos: true\n";
    let one = decode(source, &[1, 2, 3]);
    let other = decode(source, &[1, 2, 9, 9, 9]);
    assert_eq!(*field(&one, "n"), *field(&other, "n"));
    let Value::Struct(inner) = field(&one, "n") else {
        panic!("expected struct");
    };
    assert_eq!(*field(inner, "all"), Value::Bytes(vec![1, 2]));
}

#[test]
fn byte_orders_mirror_each_other() {
    let little = decode("seq:\n  - id: a\n    type: u4le\n", &[1, 2, 3, 4]);
    let big = decode("seq:\n  - id: a\n    type: u4be\n", &[4, 3, 2, 1]);
    assert_eq!(*field(&little, "a"), *field(&big, "a"));
    assert_eq!(*field(&little, "a"), Value::UnsignedInteger(0x04030201));
}

#[test]
fn types_may_go_into_one_another_before_a_byte_is_taken() {
    let source = "seq:\n  - id: a\n    type: a\ntypes:\n  a:\n    seq:\n      - id: b\n        type: b\n  b:\n    seq:\n      - id: c\n        type: c\n  c:\n    seq:\n      - id: v\n        type: u1\n      - id: rest\n        type: a\n        if: v > 0\n";
    let fields = decode(source, &[2, 1, 0]);
    assert_eq!(
        Value::Struct(fields).display(&Vec::new()),
        "{a: {b: {c: {v: 2, rest: {b: {c: {v: 1, rest: {b: {c: {v: 0}}}}}}}}}}"
    );
}

#[test]
fn bytes_after_the_last_field_change_nothing() {
    let source = "seq:\n  - id: n\n    type: u1\n  - id: items\n    type: pair\n    repeat: expr\n    repeat-expr: n\n  - id: ends\n    type: u1\n    repeat: until\n    repeat-until: _ == 0\n  - id: body\n    type: pair\n    size: 2\ntypes:\n  pair:\n    seq:\n      - id: a\n        type: u1\n      - id: b\n        type: u1\n";
    let bytes = [1, 2, 3, 4, 0, 5, 6];
    let mut more = bytes.to_vec();
    let plain = Value::Struct(decode(source, &bytes));
    for _ in 0..5 {
        more.push(0);
        assert_eq!(Value::Struct(decode(source, &more)), plain);
    }
}

fn take(
    spec: &TypeSpec,
    len: Option<usize>,
    root: &TypeDef,
    cursor: &mut Cursor,
) -> Result<Value, Error> {
    let frame = Frame::outermost(root, Endian::Little, cursor.remaining());
    let mut done = Fields::new();
    done.insert("k".to_string(), Value::UnsignedInteger(2));
    decode_by_type_spec(Some(spec), len, &None, &frame, Endian::Little, "f", &done, cursor)
}

#[test]
fn sized_types_take_all_of_their_bytes() {
    let root = parse("types:\n  t:\n    seq:\n      - id: v\n        type: u2\n").unwrap().root;
    let named = TypeSpec::Named("t".to_string());
    let mut cursor = Cursor::new(&[9, 1, 0, 5, 6, 7]);
    cursor.pos = 1;
    let v = take(&named, Some(4), &root, &mut cursor).unwrap();
    let mut fields = Fields::new();
    fields.insert("v".to_string(), Value::UnsignedInteger(1));
    assert_eq!(v, Value::Struct(fields));
    assert_eq!(cursor.pos, 5);
    let mut cursor = Cursor::new(&[1, 0, 5, 6]);
    assert!(take(&named, Some(1), &root, &mut cursor).is_err());
    let mut cursor = Cursor::new(&[1, 0, 5, 6]);
    assert!(take(&named, Some(5), &root, &mut cursor).is_err());
}

#[test]
fn switches_take_their_first_case() {
    let root = TypeDef::default();
    let switch = TypeSpec::Switch {
        on: plog::ksy::expr::parse("k").unwrap(),
        cases: vec![
            (SwitchCase::Value(Expr::Int(1)), TypeSpec::Primitive(PrimType::U1)),
            (
                SwitchCase::Value(plog::ksy::expr::parse("missing").unwrap()),
                TypeSpec::Primitive(PrimType::U8),
            ),
            (SwitchCase::Value(Expr::Int(2)), TypeSpec::Primitive(PrimType::U2)),
            (SwitchCase::Default, TypeSpec::Primitive(PrimType::U4)),
        ],
    };
    let mut cursor = Cursor::new(&[1, 2, 3, 4]);
    let v = take(&switch, None, &root, &mut cursor).unwrap();
    assert_eq!(v, Value::UnsignedInteger(0x0201));
    assert_eq!(cursor.pos, 2);
    let none = TypeSpec::Switch {
        on: plog::ksy::expr::parse("k").unwrap(),
        cases: vec![(SwitchCase::Value(Expr::Int(1)), TypeSpec::Primitive(PrimType::U1))],
    };
    let mut cursor = Cursor::new(&[1, 2, 3, 4]);
    let e = take(&none, None, &root, &mut cursor).unwrap_err();
    assert_eq!(
        e.message(&Vec::new()),
        "Protocol error: field `f`: no switch case matches value UnsignedInteger(2)"
    );
    assert_eq!(cursor.pos, 0);
}

#[test]
fn a_failure_leaves_the_cursor_where_it_was_met() {
    let root = parse(
        "types:\n  t:\n    seq:\n      - id: a\n        type: u1\n      - id: m\n        contents: [7]\n",
    )
    .unwrap()
    .root;
    let named = TypeSpec::Named("t".to_string());
    let mut cursor = Cursor::new(&[1, 2, 3, 4]);
    assert!(take(&named, None, &root, &mut cursor).is_err());
    assert_eq!(cursor.pos, 2);
    let mut cursor = Cursor::new(&[1, 2, 3, 4]);
    assert!(take(&named, Some(3), &root, &mut cursor).is_err());
    assert_eq!(cursor.pos, 3);
    let mut cursor = Cursor::new(&[1, 2, 3, 4]);
    assert!(take(&named, Some(5), &root, &mut cursor).is_err());
    assert_eq!(cursor.pos, 0);
    let mut cursor = Cursor::new(&[0xff, 0, 3]);
    assert!(take(&TypeSpec::Primitive(PrimType::StrZ), None, &root, &mut cursor).is_err());
    assert_eq!(cursor.pos, 2);
}

#[test]
fn decoded_names_are_distinct() {
    let fields = decode(
        "seq:\n  - id: t\n    type: t\ntypes:\n  t:\n    seq:\n      - id: a\n        type: u1\n      - id: b\n        type: u1\n      - id: a\n        type: u1\n",
        &[1, 2, 3],
    );
    assert_eq!(Value::Struct(fields).display(&Vec::new()), "{t: {a: 3, b: 2}}");
}
