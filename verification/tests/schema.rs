use plog::error::Error;
use plog::ksy::schema::{parse, parse_document, Endian, PrimType, RepeatSpec, SwitchCase, TypeSpec};
use plog::ksy::yaml::{read, Node, Yaml};
use plog::ksy::KsySchema;

fn failure(source: &str) -> String {
    match parse(source).unwrap_err() {
        Error::Protocol(m) => m,
        other => panic!("not a protocol error: {other:?}"),
    }
}

#[test]
fn parses_meta_endian() {
    let schema = parse("meta:\n  endian: be\nseq: []\n").unwrap();
    assert_eq!(schema.endian, Endian::Big);
}

#[test]
fn defaults_to_little_endian() {
    let schema = parse("meta:\n  id: x\nseq: []\n").unwrap();
    assert_eq!(schema.endian, Endian::Little);
}

#[test]
fn parses_primitive_seq_fields() {
    let schema = parse(
        "seq:\n  - id: magic\n    type: u1\n  - id: length\n    type: u2\n  - id: payload\n    size: length\n",
    )
    .unwrap();
    assert_eq!(schema.root.seq.len(), 3);
    assert_eq!(
        schema.root.seq[0].type_spec,
        Some(TypeSpec::Primitive(PrimType::U1))
    );
    assert!(schema.root.seq[2].size.is_some());
}

#[test]
fn parses_nested_named_type() {
    let schema = parse(
        "seq:\n  - id: header\n    type: header\ntypes:\n  header:\n    seq:\n      - id: magic\n        type: u1\n",
    )
    .unwrap();
    assert_eq!(
        schema.root.seq[0].type_spec,
        Some(TypeSpec::Named("header".to_string()))
    );
    assert!(schema.root.types.contains_key("header"));
}

#[test]
fn parses_repeat_and_if_and_contents() {
    let schema = parse(
        "seq:\n  - id: magic\n    contents: [0xAA, 0x01]\n  - id: flag\n    type: u1\n  - id: extra\n    type: u1\n    if: flag != 0\n  - id: items\n    type: u1\n    repeat: until\n    repeat-until: _ == 0\n",
    )
    .unwrap();
    assert_eq!(schema.root.seq[0].contents, Some(vec![0xAA, 0x01]));
    assert!(schema.root.seq[2].if_cond.is_some());
    assert!(matches!(
        schema.root.seq[3].repeat,
        Some(RepeatSpec::Until(_))
    ));
}

#[test]
fn parses_switch_type() {
    let schema = parse(
        "seq:\n  - id: kind\n    type: u1\n  - id: body\n    type:\n      switch-on: kind\n      cases:\n        1: u1\n        2: u2\n        _: u1\n",
    )
    .unwrap();
    match &schema.root.seq[1].type_spec {
        Some(TypeSpec::Switch { cases, .. }) => assert_eq!(cases.len(), 3),
        other => panic!("expected switch type, got {other:?}"),
    }
}

#[test]
fn parses_enums() {
    let schema = parse(
        "seq:\n  - id: cmd\n    type: u1\n    enum: command\nenums:\n  command:\n    1: start\n    2: stop\n",
    )
    .unwrap();
    assert_eq!(schema.root.seq[0].enum_name, Some("command".to_string()));
    assert_eq!(
        schema.root.enums.get("command").unwrap().get(&1),
        Some(&"start".to_string())
    );
}

#[test]
fn rejects_non_mapping_document() {
    assert!(parse("- 1\n- 2\n").is_err());
}

#[test]
fn sizes_of_primitive_types() {
    assert_eq!(PrimType::U1.fixed_size(), Some(1));
    assert_eq!(PrimType::S2.fixed_size(), Some(2));
    assert_eq!(PrimType::F4.fixed_size(), Some(4));
    assert_eq!(PrimType::F8.fixed_size(), Some(8));
    assert_eq!(PrimType::Str.fixed_size(), None);
    assert_eq!(PrimType::StrZ.fixed_size(), None);
}

#[test]
fn names_of_primitive_types() {
    let names = [
        ("u1", PrimType::U1),
        ("u2le", PrimType::U2),
        ("u4be", PrimType::U4),
        ("u8", PrimType::U8),
        ("s1", PrimType::S1),
        ("s2be", PrimType::S2),
        ("s4", PrimType::S4),
        ("s8le", PrimType::S8),
        ("f4", PrimType::F4),
        ("f8be", PrimType::F8),
        ("str", PrimType::Str),
        ("strz", PrimType::StrZ),
    ];
    for (name, prim) in names {
        let schema = parse(&format!("seq:\n  - id: a\n    type: {name}\n")).unwrap();
        assert_eq!(schema.root.seq[0].type_spec, Some(TypeSpec::Primitive(prim)));
    }
    let schema = parse("seq:\n  - id: a\n    type: u3\n").unwrap();
    assert_eq!(schema.root.seq[0].type_spec, Some(TypeSpec::Named("u3".to_string())));
}

#[test]
fn suffixes_override_the_byte_order() {
    let schema = parse(
        "seq:\n  - id: a\n    type: u2le\n  - id: b\n    type: u2be\n  - id: c\n    type: u2\n  - id: d\n    type: le\n",
    )
    .unwrap();
    assert_eq!(schema.root.seq[0].endian_override, Some(Endian::Little));
    assert_eq!(schema.root.seq[1].endian_override, Some(Endian::Big));
    assert_eq!(schema.root.seq[2].endian_override, None);
    assert_eq!(schema.root.seq[3].endian_override, None);
}

#[test]
fn other_properties_of_fields() {
    let schema = parse(
        "seq:\n  - id: a\n    size-eos: true\n    encoding: UTF-8\n    contents: AB\n  - id: b\n    type: u1\n    repeat: expr\n    repeat-expr: 3\n    size: 4\n  - id: c\n    type: u1\n    repeat: eos\n",
    )
    .unwrap();
    let seq = &schema.root.seq;
    assert!(seq[0].size_eos);
    assert!(!seq[1].size_eos);
    assert_eq!(seq[0].encoding, Some("UTF-8".to_string()));
    assert_eq!(seq[0].contents, Some(b"AB".to_vec()));
    assert_eq!(seq[1].repeat, Some(RepeatSpec::Expr(plog::ksy::expr::Expr::Int(3))));
    assert_eq!(seq[1].size, Some(plog::ksy::expr::Expr::Int(4)));
    assert_eq!(seq[2].repeat, Some(RepeatSpec::Eos));
}

#[test]
fn cases_of_a_switch() {
    let schema = parse(
        "seq:\n  - id: body\n    type:\n      switch-on: kind\n      cases:\n        1: u1\n        '\"x\"': inner\n        _: u2\n",
    )
    .unwrap();
    match &schema.root.seq[0].type_spec {
        Some(TypeSpec::Switch { on, cases }) => {
            assert_eq!(*on, plog::ksy::expr::parse("kind").unwrap());
            assert_eq!(cases[0].0, SwitchCase::Value(plog::ksy::expr::Expr::Int(1)));
            assert_eq!(
                cases[1].0,
                SwitchCase::Value(plog::ksy::expr::Expr::Str("x".to_string()))
            );
            assert_eq!(cases[1].1, TypeSpec::Named("inner".to_string()));
            assert_eq!(cases[2].0, SwitchCase::Default);
        }
        other => panic!("expected switch type, got {other:?}"),
    }
}

#[test]
fn document_errors() {
    assert!(failure("a: [").starts_with("invalid YAML: "));
    assert_eq!(failure("- 1"), "KSY document must be a YAML mapping");
    assert_eq!(failure("meta:\n  endian: middle\n"), "unknown endian `middle`");
    assert_eq!(failure("seq: 5\n"), "`seq` must be a YAML sequence");
    assert_eq!(failure("types: []\n"), "`types` must be a YAML mapping");
    assert_eq!(failure("types:\n  1: {}\n"), "type name must be a string");
    assert_eq!(failure("types:\n  a: 5\n"), "type `a` must be a mapping");
    assert_eq!(failure("enums: 5\n"), "`enums` must be a YAML mapping");
    assert_eq!(failure("enums:\n  1: {}\n"), "enum name must be a string");
    assert_eq!(failure("enums:\n  a: 5\n"), "enum `a` must be a mapping");
    assert_eq!(failure("enums:\n  a:\n    x: y\n"), "enum `a` value must be an integer");
    assert_eq!(failure("enums:\n  a:\n    1: 2\n"), "enum `a` symbol must be a string");
}

#[test]
fn field_errors() {
    let field = |rest: &str| failure(&format!("seq:\n  - id: a\n    {rest}\n"));
    assert_eq!(failure("seq:\n  - 5\n"), "each `seq` entry must be a mapping");
    assert_eq!(failure("seq:\n  - type: u1\n"), "`seq` entry is missing a string `id`");
    assert_eq!(field("type: 5"), "field `a`: unsupported `type` value Number(5)");
    assert_eq!(field("size: 1.5"), "field `a`: `size` must be an integer");
    assert_eq!(field("size: [1]"), "field `a`: unsupported `size` value Sequence [Number(1)]");
    assert_eq!(
        field("if: true"),
        "field `a`: `if` must be a string expression, found Bool(true)"
    );
    assert_eq!(field("repeat: expr"), "field `a`: `repeat: expr` needs `repeat-expr`");
    assert_eq!(
        field("repeat: expr\n    repeat-expr: 1.5"),
        "field `a`: `repeat-expr` must be an integer"
    );
    assert_eq!(field("repeat: until"), "field `a`: `repeat: until` needs `repeat-until`");
    assert_eq!(field("repeat: often"), "field `a`: unknown `repeat` mode `often`");
    assert_eq!(
        field("contents: [256]"),
        "field `a`: `contents` list entries must be bytes 0-255"
    );
    assert_eq!(field("contents: 5"), "field `a`: unsupported `contents` value Number(5)");
    assert!(field("size: 1 +").contains("unexpected token in expression"));
}

#[test]
fn switch_errors() {
    let switch = |rest: &str| {
        failure(&format!("seq:\n  - id: a\n    type:\n      {rest}\n"))
    };
    assert_eq!(switch("cases: {}"), "switch type is missing `switch-on`");
    assert_eq!(switch("switch-on: k"), "switch type is missing `cases` mapping");
    assert_eq!(
        switch("switch-on: k\n      cases:\n        1.5: u1"),
        "switch case key must be an integer"
    );
    assert_eq!(
        switch("switch-on: k\n      cases:\n        true: u1"),
        "unsupported switch case key Bool(true)"
    );
    assert_eq!(
        switch("switch-on: k\n      cases:\n        1: 2"),
        "unsupported switch case value Number(2)"
    );
}

#[test]
fn yaml_trees_are_copied() {
    let y = read("a: [1, -2, x, null, true, 1.5]\nb: !tag {c: d}\n").unwrap();
    let Node::Mapping(entries) = &y.node else {
        panic!("expected a mapping");
    };
    assert_eq!(entries.len(), 2);
    assert_eq!(entries[0].0.as_str(), Some("a"));
    let Node::Sequence(items) = &entries[0].1.node else {
        panic!("expected a sequence");
    };
    assert_eq!(items[0].as_i64(), Some(1));
    assert_eq!(items[1].as_i64(), Some(-2));
    assert_eq!(items[2].as_str(), Some("x"));
    assert!(matches!(items[3].node, Node::Null));
    assert_eq!(items[4].as_bool(), Some(true));
    assert_eq!(items[5].as_i64(), None);
    assert_eq!(items[5].debug, "Number(1.5)");
    assert!(matches!(entries[1].1.node, Node::Tagged(_)));
    assert_eq!(entries[1].1.as_mapping().unwrap().len(), 1);
    assert!(read("a: [").is_err());
}

#[test]
fn documents_built_by_hand() {
    let text = |s: &str| Yaml { node: Node::Str(s.to_string()), debug: String::new() };
    let field = Yaml {
        node: Node::Mapping(vec![(text("id"), text("a")), (text("type"), text("u4be"))]),
        debug: String::new(),
    };
    let doc = Yaml {
        node: Node::Mapping(vec![(
            text("seq"),
            Yaml { node: Node::Sequence(vec![field]), debug: String::new() },
        )]),
        debug: String::new(),
    };
    let schema = parse_document(&doc).unwrap();
    assert_eq!(schema.root.seq.len(), 1);
    assert_eq!(schema.root.seq[0].id, "a");
    assert_eq!(schema.root.seq[0].endian_override, Some(Endian::Big));
}

#[test]
fn empty_schemas() {
    assert!(KsySchema::parse("name: test").unwrap().is_empty());
    assert!(!KsySchema::parse("seq:\n  - id: a\n    type: u1\n").unwrap().is_empty());
}

#[test]
fn copies_of_schemas_decode_alike() {
    let schema = KsySchema::parse(
        "seq:\n  - id: k\n    type: u1\n    enum: e\n  - id: b\n    type:\n      switch-on: '1'\n      cases:\n        1: inner\n        _: u1\n  - id: c\n    contents: Z\n  - id: d\n    type: u1\n    repeat: expr\n    repeat-expr: 2\n    if: 'true'\ntypes:\n  inner:\n    seq:\n      - id: v\n        type: u2\nenums:\n  e:\n    1: one\n",
    )
    .unwrap();
    let bytes = [1, 2, 3, b'Z', 5, 6];
    let copy = schema.clone();
    let fields = schema.decode(&bytes).unwrap();
    let again = copy.decode(&bytes).unwrap();
    assert_eq!(plog::result::Value::Struct(fields.clone()), plog::result::Value::Struct(again));
    assert_eq!(
        *fields.get("k").unwrap(),
        plog::result::Value::Str("one".to_string())
    );
    assert!(plog::ksy::schema::TypeDef::default().seq.is_empty());
}

#[test]
fn names_of_other_types_say_nothing_of_the_byte_order() {
    for name in ["table", "tribe", "module_le", "u3be", "u1le", "strle"] {
        let schema = parse(&format!("seq:\n  - id: a\n    type: {name}\n")).unwrap();
        let field = &schema.root.seq[0];
        assert_eq!(field.type_spec, Some(TypeSpec::Named(name.to_string())));
        assert_eq!(field.endian_override, None);
    }
    let source = "meta:\n  endian: be\nseq:\n  - id: a\n    type: table\ntypes:\n  table:\n    seq:\n      - id: v\n        type: u2\n";
    let fields = KsySchema::parse(source).unwrap().decode(&[1, 2]).unwrap();
    let plog::result::Value::Struct(table) = fields.get("a").unwrap() else {
        panic!("expected struct");
    };
    assert_eq!(
        *table.get("v").unwrap(),
        plog::result::Value::UnsignedInteger(0x0102)
    );
}

#[test]
fn suffixes_change_the_byte_order_only() {
    for name in ["u2", "u4", "u8", "s2", "s4", "s8", "f4", "f8"] {
        let (little, big) = (format!("{name}le"), format!("{name}be"));
        assert!(PrimType::parse(name).is_some());
        assert_eq!(PrimType::parse(&little), PrimType::parse(name));
        assert_eq!(PrimType::parse(&big), PrimType::parse(name));
        assert_eq!(PrimType::endian_override(name), None);
        assert_eq!(PrimType::endian_override(&little), Some(Endian::Little));
        assert_eq!(PrimType::endian_override(&big), Some(Endian::Big));
    }
    assert_eq!(PrimType::endian_override("table"), None);
}
