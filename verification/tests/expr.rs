use plog::error::Error;
use plog::ksy::eval::{eval_binary, values_equal};
use plog::ksy::expr::{eval, eval_bool, eval_usize, parse, BinOp, EvalScope, Expr, UnOp};
use plog::ksy::token::{lex, Op, Token};
use plog::render::FloatText;
use plog::result::{Fields, Value};

fn scope(fields: &Fields) -> EvalScope<'_> {
    EvalScope { fields, current: None }
}

fn message(e: &Error) -> String {
    let texts: Vec<FloatText> = e
        .floats()
        .into_iter()
        .map(|bits| FloatText {
            bits,
            display: format!("{}", f64::from_bits(bits)),
            debug: format!("{:?}", f64::from_bits(bits)),
        })
        .collect();
    e.message(&texts)
}

fn value_of(source: &str, fields: &Fields) -> Value {
    eval(&parse(source).unwrap(), &scope(fields)).unwrap()
}

fn parse_failure(source: &str) -> String {
    message(&parse(source).unwrap_err())
}

fn eval_failure(source: &str, fields: &Fields) -> String {
    message(&eval(&parse(source).unwrap(), &scope(fields)).unwrap_err())
}

fn number(n: i64) -> Box<Expr> {
    Box::new(Expr::Int(n))
}

#[test]
fn arithmetic_and_comparison() {
    let fields = Fields::new();
    let expr = parse("1 + 2 * 3 == 7").unwrap();
    assert!(eval_bool(&expr, &scope(&fields)).unwrap());
}

#[test]
fn field_reference() {
    let mut fields = Fields::new();
    fields.insert("length".to_string(), Value::UnsignedInteger(5));
    let expr = parse("length - 1").unwrap();
    assert_eq!(eval_usize(&expr, &scope(&fields)).unwrap(), 4);
}

#[test]
fn bitwise_and_flags() {
    let mut fields = Fields::new();
    fields.insert("flags".to_string(), Value::UnsignedInteger(0x03));
    let expr = parse("flags & 0x01 != 0").unwrap();
    assert!(eval_bool(&expr, &scope(&fields)).unwrap());
}

#[test]
fn logical_and_or() {
    let mut fields = Fields::new();
    fields.insert("command".to_string(), Value::UnsignedInteger(0x10));
    let expr = parse("command == 0x10 or command == 0x20").unwrap();
    assert!(eval_bool(&expr, &scope(&fields)).unwrap());
}

#[test]
fn underscore_refers_to_current_element() {
    let fields = Fields::new();
    let current = Value::UnsignedInteger(0);
    let expr = parse("_ == 0").unwrap();
    let scope = EvalScope { fields: &fields, current: Some(&current) };
    assert!(eval_bool(&expr, &scope).unwrap());
}

#[test]
fn dotted_nested_field_reference() {
    let mut nested = Fields::new();
    nested.insert("length".to_string(), Value::UnsignedInteger(9));
    let mut fields = Fields::new();
    fields.insert("header".to_string(), Value::Struct(nested));
    let expr = parse("header.length == 9").unwrap();
    assert!(eval_bool(&expr, &scope(&fields)).unwrap());
}

#[test]
fn unknown_field_is_an_error() {
    let fields = Fields::new();
    let expr = parse("missing == 1").unwrap();
    assert!(eval_bool(&expr, &scope(&fields)).is_err());
}

#[test]
fn tokens_of_every_sort() {
    let tokens = lex("a_1 (0x1F).'q\"' \"w'\" 12 <= << < >> >= > == != + - * / % & | ^").unwrap();
    let shown: Vec<String> = tokens.iter().map(|t| t.quoted()).collect();
    assert_eq!(
        shown,
        vec![
            "Ident(\"a_1\")",
            "LParen",
            "Int(31)",
            "RParen",
            "Dot",
            "Str(\"q\\\"\")",
            "Str(\"w'\")",
            "Int(12)",
            "Op(\"<=\")",
            "Op(\"<<\")",
            "Op(\"<\")",
            "Op(\">>\")",
            "Op(\">=\")",
            "Op(\">\")",
            "Op(\"==\")",
            "Op(\"!=\")",
            "Op(\"+\")",
            "Op(\"-\")",
            "Op(\"*\")",
            "Op(\"/\")",
            "Op(\"%\")",
            "Op(\"&\")",
            "Op(\"|\")",
            "Op(\"^\")",
        ]
    );
    assert!(matches!(tokens[8], Token::Op(Op::LessEqual)));
}

#[test]
fn words_outside_ascii() {
    let tokens = lex("\u{e9}t\u{e9}\u{663} \u{2003}x").unwrap();
    assert_eq!(tokens.len(), 2);
    assert!(matches!(&tokens[0], Token::Ident(w) if w == "\u{e9}t\u{e9}\u{663}"));
}

#[test]
fn lexical_errors() {
    assert_eq!(
        parse_failure("'abc"),
        "Protocol error: unterminated string literal in expression"
    );
    assert_eq!(
        parse_failure("0x"),
        "Protocol error: invalid hex literal: cannot parse integer from empty string"
    );
    assert_eq!(
        parse_failure("0x8000000000000000"),
        "Protocol error: invalid hex literal: number too large to fit in target type"
    );
    assert_eq!(
        parse_failure("9223372036854775808"),
        "Protocol error: invalid integer literal: number too large to fit in target type"
    );
    assert_eq!(parse_failure("1 ! 2"), "Protocol error: unexpected character `!` in expression");
    assert_eq!(parse_failure("a = b"), "Protocol error: unexpected character `=` in expression");
}

#[test]
fn largest_literals() {
    assert_eq!(parse("9223372036854775807").unwrap(), Expr::Int(i64::MAX));
    assert_eq!(parse("0x7fffffffffffffff").unwrap(), Expr::Int(i64::MAX));
    assert_eq!(parse("007").unwrap(), Expr::Int(7));
}

#[test]
fn syntax_errors() {
    assert_eq!(parse_failure(""), "Protocol error: unexpected token in expression: None");
    assert_eq!(
        parse_failure("1 +"),
        "Protocol error: unexpected token in expression: None"
    );
    assert_eq!(
        parse_failure("* 2"),
        "Protocol error: unexpected token in expression: Some(Op(\"*\"))"
    );
    assert_eq!(
        parse_failure("(1 + 2"),
        "Protocol error: expected `)` in expression, found None"
    );
    assert_eq!(
        parse_failure("(1 2)"),
        "Protocol error: expected `)` in expression, found Some(Int(2))"
    );
    assert_eq!(
        parse_failure("a.5"),
        "Protocol error: expected identifier after `.` in expression, found Some(Int(5))"
    );
    assert_eq!(
        parse_failure("1 < 2 < 3"),
        "Protocol error: unexpected trailing tokens in expression starting at Op(\"<\")"
    );
    assert_eq!(
        parse_failure("a b"),
        "Protocol error: unexpected trailing tokens in expression starting at Ident(\"b\")"
    );
}

#[test]
fn closer_operators_go_first() {
    assert_eq!(
        parse("1 + 2 * 3").unwrap(),
        Expr::Binary(
            BinOp::Add,
            number(1),
            Box::new(Expr::Binary(BinOp::Mul, number(2), number(3)))
        )
    );
    assert_eq!(
        parse("1 - 2 + 3").unwrap(),
        Expr::Binary(
            BinOp::Add,
            Box::new(Expr::Binary(BinOp::Sub, number(1), number(2))),
            number(3)
        )
    );
    assert_eq!(
        parse("1 | 2 ^ 3 & 4 << 5").unwrap(),
        Expr::Binary(
            BinOp::BitOr,
            number(1),
            Box::new(Expr::Binary(
                BinOp::BitXor,
                number(2),
                Box::new(Expr::Binary(
                    BinOp::BitAnd,
                    number(3),
                    Box::new(Expr::Binary(BinOp::Shl, number(4), number(5)))
                ))
            ))
        )
    );
}

#[test]
fn brackets_are_read_back() {
    assert_eq!(
        parse("((1 + 2) * (- 3))").unwrap(),
        Expr::Binary(
            BinOp::Mul,
            Box::new(Expr::Binary(BinOp::Add, number(1), number(2))),
            Box::new(Expr::Unary(UnOp::Neg, number(3)))
        )
    );
    assert_eq!(
        parse("(not (a.b.c))").unwrap(),
        Expr::Unary(
            UnOp::Not,
            Box::new(Expr::Field(vec!["a".to_string(), "b".to_string(), "c".to_string()]))
        )
    );
}

#[test]
fn copies_of_expressions_are_equal() {
    let e = parse("not a.b == 'x' or -1 < 2 and true").unwrap();
    assert_eq!(e.clone(), e);
}

#[test]
fn prefix_operators_repeat() {
    let fields = Fields::new();
    assert_eq!(value_of("- - 5", &fields), Value::Integer(5));
    assert_eq!(value_of("not not 3", &fields), Value::Boolean(true));
    assert_eq!(value_of("not 1 == 2", &fields), Value::Boolean(true));
}

#[test]
fn arithmetic_wraps_around() {
    let fields = Fields::new();
    assert_eq!(value_of("9223372036854775807 + 1", &fields), Value::Integer(i64::MIN));
    assert_eq!(value_of("0 - 9223372036854775807 - 2", &fields), Value::Integer(i64::MAX));
    assert_eq!(value_of("9223372036854775807 * 3", &fields), Value::Integer(9223372036854775805));
    assert_eq!(value_of("-(9223372036854775807 + 1)", &fields), Value::Integer(i64::MIN));
}

#[test]
fn division_truncates() {
    let fields = Fields::new();
    assert_eq!(value_of("-7 / 2", &fields), Value::Integer(-3));
    assert_eq!(value_of("-7 % 2", &fields), Value::Integer(-1));
    assert_eq!(value_of("7 / -2", &fields), Value::Integer(-3));
    assert_eq!(value_of("7 % -2", &fields), Value::Integer(1));
    assert_eq!(
        eval_failure("1 / 0", &fields),
        "Protocol error: division by zero in expression"
    );
    assert_eq!(eval_failure("1 % 0", &fields), "Protocol error: modulo by zero in expression");
    assert!(eval_failure("(9223372036854775807 + 1) / -1", &fields).contains("overflow"));
    assert!(eval_failure("(9223372036854775807 + 1) % -1", &fields).contains("overflow"));
}

#[test]
fn bits_and_shifts() {
    let fields = Fields::new();
    assert_eq!(value_of("12 & 10", &fields), Value::Integer(8));
    assert_eq!(value_of("12 | 10", &fields), Value::Integer(14));
    assert_eq!(value_of("12 ^ 10", &fields), Value::Integer(6));
    assert_eq!(value_of("1 << 4", &fields), Value::Integer(16));
    assert_eq!(value_of("1 << 63", &fields), Value::Integer(i64::MIN));
    assert_eq!(value_of("1 << 65", &fields), Value::Integer(2));
    assert_eq!(value_of("1 << -1", &fields), Value::Integer(i64::MIN));
    assert_eq!(value_of("-16 >> 2", &fields), Value::Integer(-4));
}

#[test]
fn short_circuits() {
    let fields = Fields::new();
    assert_eq!(value_of("false and missing", &fields), Value::Boolean(false));
    assert_eq!(value_of("1 or missing", &fields), Value::Boolean(true));
    assert!(eval(&parse("true and missing").unwrap(), &scope(&fields)).is_err());
}

#[test]
fn kinds_of_numbers_compare() {
    let mut fields = Fields::new();
    fields.insert("u".to_string(), Value::UnsignedInteger(u64::MAX));
    fields.insert("b".to_string(), Value::Boolean(true));
    fields.insert("s".to_string(), Value::Str("x".to_string()));
    assert_eq!(value_of("u == -1", &fields), Value::Boolean(true));
    assert_eq!(value_of("b == 1", &fields), Value::Boolean(true));
    assert_eq!(value_of("s == 'x'", &fields), Value::Boolean(true));
    assert_eq!(value_of("s != \"y\"", &fields), Value::Boolean(true));
    assert_eq!(value_of("s == 1", &fields), Value::Boolean(false));
    assert!(values_equal(&Value::Integer(2), &Value::UnsignedInteger(2)));
    assert!(!values_equal(&Value::Integer(2), &Value::UnsignedInteger(3)));
    assert!(!values_equal(
        &Value::Float(f64::NAN.to_bits()),
        &Value::Float(f64::NAN.to_bits())
    ));
}

#[test]
fn evaluation_errors() {
    let mut fields = Fields::new();
    fields.insert("x".to_string(), Value::Float(1.5f64.to_bits()));
    fields.insert("n".to_string(), Value::Struct(Fields::new()));
    assert_eq!(
        eval_failure("x + 1", &fields),
        "Protocol error: expected an integer in expression, found Float(1.5)"
    );
    assert_eq!(
        eval_failure("x.y", &fields),
        "Protocol error: cannot access field `y` on non-struct value Float(1.5)"
    );
    assert_eq!(
        eval_failure("n.y", &fields),
        "Protocol error: unknown nested field reference: `y`"
    );
    assert_eq!(
        eval_failure("missing", &fields),
        "Protocol error: unknown field reference: `missing`"
    );
    assert_eq!(
        eval_failure("_", &fields),
        "Protocol error: `_` is not available in this context"
    );
    assert_eq!(
        message(&eval(&Expr::Field(vec![]), &scope(&fields)).unwrap_err()),
        "Protocol error: empty field reference"
    );
    assert_eq!(
        message(&eval_usize(&parse("1 - 3").unwrap(), &scope(&fields)).unwrap_err()),
        "Protocol error: size expression evaluated to negative value: -2"
    );
}

#[test]
fn brackets_change_nothing() {
    for source in ["1 + 2 * 3", "a.b == 0x1f", "not x", "'(' == \")\"", "(1)", "x"] {
        let plain = parse(source).unwrap();
        assert_eq!(parse(&format!("({source})")).unwrap(), plain);
        assert_eq!(
            parse(&format!("not ({source})")).unwrap(),
            Expr::Unary(UnOp::Not, Box::new(plain))
        );
    }
}

#[test]
fn quotients_and_remainders() {
    for (a, b, q, m) in [(7, 2, 3, 1), (-7, 2, -3, -1), (7, -2, -3, 1), (-7, -2, 3, -1)] {
        let (l, r) = (Value::Integer(a), Value::Integer(b));
        assert_eq!(eval_binary(BinOp::Div, &l, &r).unwrap(), Value::Integer(q));
        assert_eq!(eval_binary(BinOp::Mod, &l, &r).unwrap(), Value::Integer(m));
    }
    let (l, r) = (Value::Integer(1), Value::Boolean(false));
    assert!(eval_binary(BinOp::Div, &l, &r).is_err());
    assert!(eval_binary(BinOp::Mod, &l, &r).is_err());
}

#[test]
fn comparing_goes_both_ways() {
    let mut x = Fields::new();
    x.insert("a".to_string(), Value::Integer(1));
    x.insert("b".to_string(), Value::Null);
    let mut y = Fields::new();
    y.insert("b".to_string(), Value::Null);
    y.insert("a".to_string(), Value::Integer(1));
    let mut z = Fields::new();
    z.insert("b".to_string(), Value::Null);
    z.insert("c".to_string(), Value::Integer(1));
    let values = [
        Value::Struct(x),
        Value::Struct(y),
        Value::Struct(z),
        Value::Integer(1),
        Value::UnsignedInteger(1),
        Value::Boolean(true),
        Value::Boolean(false),
        Value::Str("1".to_string()),
        Value::Array(vec![Value::Integer(1)]),
    ];
    for l in &values {
        for r in &values {
            assert_eq!(values_equal(l, r), values_equal(r, l));
        }
    }
    assert!(values_equal(&values[0], &values[1]));
    assert!(!values_equal(&values[0], &values[2]));
    assert!(values_equal(&values[4], &values[5]));
    assert!(!values_equal(&values[4], &values[6]));
    assert!(!values_equal(&values[3], &values[7]));
}
