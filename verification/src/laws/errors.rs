//! Errors: which one it is, and what it names.
use vstd::prelude::*;

#[allow(unused_imports)]
use crate::{
    decoder, error::ErrorModel, extractor, hex, ksy::eval, ksy::eval::ScopeModel, ksy::expr,
    ksy::expr::BinOp, ksy::expr::ExprModel, ksy::interp, ksy::interp::Entries,
    ksy::interp::FrameModel, ksy::read, ksy::schema, ksy::schema::Endian, ksy::schema::FieldModel,
    ksy::schema::TypeModel, ksy::schema::TypeSpecModel, ksy::token, ksy::token::TokenModel,
    ksy::yaml, ksy::yaml::NodeModel, ksy::yaml::YamlModel, laws::decoding, laws::documents,
    laws::documents::Mapping, laws::extraction, named, render, result::ValueModel, text,
};

verus! {

// ---------------------------------------------------------------------------
// Payloads
// ---------------------------------------------------------------------------

proof fn lemma_first_invalid(s: Seq<u8>, i: int)
    requires
        0 <= i < s.len(),
        !extraction::is_space(s[i]) && !extraction::is_hex(s[i]),
        forall|j: int|
            0 <= j < i ==> extraction::is_space(#[trigger] s[j]) || extraction::is_hex(s[j]),
    ensures
        hex::first_invalid(s) == Some(s[i]),
    decreases s.len(),
{
    let init = s.drop_last();
    if i < s.len() - 1 {
        assert(init[i] == s[i]);
        assert(forall|j: int| 0 <= j < i ==> init[j] == s[j]);
        lemma_first_invalid(init, i);
    } else {
        assert(forall|j: int| 0 <= j < i ==> init[j] == s[j]);
        extraction::lemma_unspaced(init);
    }
}

/// The error about a payload names the first character that is neither a digit
/// nor white space; only where there is none can the number of digits be at
/// fault.
pub proof fn law_the_first_bad_character_is_named(s: Seq<u8>, i: int)
    requires
        0 <= i <= s.len(),
        i < s.len() ==> !extraction::is_space(s[i]) && !extraction::is_hex(s[i]),
        forall|j: int|
            0 <= j < i ==> extraction::is_space(#[trigger] s[j]) || extraction::is_hex(s[j]),
    ensures
        i < s.len() ==> hex::decoded(s) == Err::<Seq<u8>, ErrorModel>(
            ErrorModel::HexDecode("invalid hex character: "@ + text::char_debug(s[i] as char)),
        ),
        i == s.len() && extraction::unspaced(s).len() % 2 == 1 ==> hex::decoded(s) == Err::<
            Seq<u8>,
            ErrorModel,
        >(ErrorModel::HexDecode("odd number of hex digits"@)),
{
    if i < s.len() {
        lemma_first_invalid(s, i);
    } else {
        extraction::lemma_unspaced(s);
    }
}

// ---------------------------------------------------------------------------
// Bytes that are missing or wrong
// ---------------------------------------------------------------------------

/// Where the data ends too early, the error names the field, the bytes it needs
/// and the bytes that there are.
pub proof fn law_missing_bytes_are_counted(b: Seq<u8>, p: nat, n: nat, id: Seq<char>)
    requires
        p <= b.len(),
        n > b.len() - p,
    ensures
        read::taken(b, p, n, id) == Err::<Seq<u8>, ErrorModel>(
            ErrorModel::Protocol(
                "unexpected end of data while reading field `"@ + id + "` ("@ + text::decimal(n)
                    + " bytes needed, "@ + text::decimal((b.len() - p) as nat) + " available)"@,
            ),
        ),
{
}

/// Where other bytes stand in the place of the magic ones, the error shows what
/// was expected and what is there.
pub proof fn law_wrong_magic_bytes_are_shown(
    c: FrameModel,
    i: int,
    done: Entries,
    magic: Seq<u8>,
    b: Seq<u8>,
    p: nat,
)
    requires
        c.chain.len() > 0,
        c.chain[c.chain.len() - 1].seq[i].contents == Some(magic),
        p + magic.len() <= b.len(),
        b.skip(p as int).take(magic.len() as int) != magic,
    ensures
        match interp::single(c, i, done, b, p) {
            Err((e, _)) => e == ErrorModel::Protocol(
                "field `"@ + c.chain[c.chain.len() - 1].seq[i].id
                    + "`: magic bytes mismatch: expected ["@ + render::hex_list(magic)
                    + "], found ["@ + render::hex_list(b.skip(p as int).take(magic.len() as int))
                    + "]"@,
            ),
            Ok(_) => false,
        },
{
    assert(b.subrange(p as int, (p + magic.len()) as int) =~= b.skip(p as int).take(
        magic.len() as int,
    ));
}

/// Bytes that are no string make an error that names the field.
pub proof fn law_bytes_that_are_no_string_are_told(
    b: Seq<u8>,
    encoding: Option<Seq<char>>,
    id: Seq<char>,
)
    requires
        read::string_decoded(b, encoding, id) is Err,
    ensures
        exists|rest: Seq<char>|
            read::string_decoded(b, encoding, id) == Err::<Seq<char>, ErrorModel>(
                ErrorModel::Protocol(#[trigger] ("field `"@ + id + rest)),
            ),
{
    let first = "`: expected ASCII, found non-ASCII bytes"@;
    let second = "`: invalid string encoding: "@ + text::utf8_error(b);
    assert("field `"@ + id + first + Seq::<char>::empty() =~= "field `"@ + id + first);
    assert("field `"@ + id + "`: invalid string encoding: "@ + text::utf8_error(b) =~= "field `"@
        + id + second);
}

// ---------------------------------------------------------------------------
// Types
// ---------------------------------------------------------------------------

/// A type that no definition has is named in the error.
pub proof fn law_unknown_types_are_named(
    name: Seq<char>,
    len: Option<usize>,
    encoding: Option<Seq<char>>,
    c: FrameModel,
    endian: Endian,
    id: Seq<char>,
    done: Entries,
    b: Seq<u8>,
    p: nat,
)
    requires
        c.chain.len() > 0,
        forall|k: int| 0 <= k < c.chain.len() ==> !decoding::knows(#[trigger] c.chain[k], name),
    ensures
        interp::typed(
            Some(TypeSpecModel::Named(name)),
            len,
            encoding,
            c,
            endian,
            id,
            done,
            b,
            p,
        ) == Err::<(ValueModel, nat), (ErrorModel, nat)>(
            (ErrorModel::Protocol("unknown type reference `"@ + name + "`"@), 0),
        ),
{
    decoding::law_which_definition_a_name_stands_for(c.chain, name);
    assert(interp::level_of(c.chain, name) is None);
    assert(interp::chosen(TypeSpecModel::Named(name), id, done) == Ok::<
        interp::ChosenModel,
        ErrorModel,
    >(interp::ChosenModel::Named(name)));
}

proof fn lemma_no_case(
    cases: Seq<(schema::CaseModel, TypeSpecModel)>,
    i: int,
    v: ValueModel,
    done: Entries,
)
    requires
        forall|k: int|
            0 <= k < cases.len() ==> !decoding::under_case((#[trigger] cases[k]).0, v, done),
    ensures
        interp::case_from(cases, i, v, done) is None,
    decreases cases.len() - i,
{
    if 0 <= i < cases.len() {
        assert(!decoding::under_case(cases[i].0, v, done));
        lemma_no_case(cases, i + 1, v, done);
    }
}

/// A value that no case of a switch is for is shown in the error, and the field
/// is named.
pub proof fn law_values_without_a_case_are_shown(
    on: ExprModel,
    cases: Seq<(schema::CaseModel, TypeSpecModel)>,
    v: ValueModel,
    len: Option<usize>,
    encoding: Option<Seq<char>>,
    c: FrameModel,
    endian: Endian,
    id: Seq<char>,
    done: Entries,
    b: Seq<u8>,
    p: nat,
)
    requires
        eval::evaluated(on, decoding::seeing(done)) == Ok::<ValueModel, ErrorModel>(v),
        forall|k: int|
            0 <= k < cases.len() ==> !decoding::under_case((#[trigger] cases[k]).0, v, done),
    ensures
        interp::typed(
            Some(TypeSpecModel::Switch { on, cases }),
            len,
            encoding,
            c,
            endian,
            id,
            done,
            b,
            p,
        ) == Err::<(ValueModel, nat), (ErrorModel, nat)>(
            (
                ErrorModel::ProtocolValue(
                    "field `"@ + id + "`: no switch case matches value "@,
                    v,
                ),
                0,
            ),
        ),
{
    lemma_no_case(cases, 0, v, done);
    assert(interp::chosen(TypeSpecModel::Switch { on, cases }, id, done) is Err);
}

// ---------------------------------------------------------------------------
// Expressions
// ---------------------------------------------------------------------------

/// The error about a reference names what could not be found, or the value that
/// has no members.
pub proof fn law_what_is_not_found_is_named(path: Seq<Seq<char>>, name: Seq<char>, s: ScopeModel)
    requires
        name != "_"@,
    ensures
        named::find_entry(s.fields, name) is None ==> eval::evaluated(
            ExprModel::Field(seq![name]),
            s,
        ) == Err::<ValueModel, ErrorModel>(
            ErrorModel::Protocol("unknown field reference: `"@ + name + "`"@),
        ),
        path.len() == 1 && path[0] != "_"@ ==> match named::find_entry(s.fields, path[0]) {
            Some(ValueModel::Struct(f)) => named::find_entry(f, name) is None ==> eval::evaluated(
                ExprModel::Field(path.push(name)),
                s,
            ) == Err::<ValueModel, ErrorModel>(
                ErrorModel::Protocol("unknown nested field reference: `"@ + name + "`"@),
            ),
            Some(v) => eval::evaluated(ExprModel::Field(path.push(name)), s) == Err::<
                ValueModel,
                ErrorModel,
            >(
                ErrorModel::ProtocolValue(
                    "cannot access field `"@ + name + "` on non-struct value "@,
                    v,
                ),
            ),
            None => eval::evaluated(ExprModel::Field(path.push(name)), s) == Err::<
                ValueModel,
                ErrorModel,
            >(ErrorModel::Protocol("unknown field reference: `"@ + path[0] + "`"@)),
        },
{
    reveal_with_fuel(eval::member, 3);
    assert(path.push(name).len() == path.len() + 1);
    if path.len() == 1 {
        assert(path.push(name)[0] == path[0]);
        assert(path.push(name)[1] == name);
    }
}

/// A value that is no integer where one is needed is shown, and so is a size
/// below zero.
pub proof fn law_values_that_do_not_fit_are_shown(v: ValueModel, e: ExprModel, s: ScopeModel, n: i64)
    ensures
        eval::number(v) is Err ==> eval::number(v) == Err::<i64, ErrorModel>(
            ErrorModel::ProtocolValue("expected an integer in expression, found "@, v),
        ),
        eval::evaluated(e, s) == Ok::<ValueModel, ErrorModel>(v) && eval::number(v) == Ok::<
            i64,
            ErrorModel,
        >(n) && n < 0 ==> eval::measured(e, s) == Err::<usize, ErrorModel>(
            ErrorModel::Protocol(
                "size expression evaluated to negative value: -"@ + text::decimal((-n) as nat),
            ),
        ),
{
    reveal_strlit("size expression evaluated to negative value: -");
    reveal_strlit("size expression evaluated to negative value: ");
    let t = text::decimal((-n) as nat);
    assert("size expression evaluated to negative value: -"@ + t
        =~= "size expression evaluated to negative value: "@ + (seq!['-'] + t));
}

/// Division and remainder tell apart the divisor zero from a result that is out
/// of range.
pub proof fn law_what_is_wrong_with_a_division(l: ValueModel, r: ValueModel, a: i64, b: i64)
    requires
        eval::number(l) == Ok::<i64, ErrorModel>(a),
        eval::number(r) == Ok::<i64, ErrorModel>(b),
    ensures
        b == 0 ==> eval::combined(BinOp::Div, l, r) == Err::<ValueModel, ErrorModel>(
            ErrorModel::Protocol("division by zero in expression"@),
        ),
        b == 0 ==> eval::combined(BinOp::Mod, l, r) == Err::<ValueModel, ErrorModel>(
            ErrorModel::Protocol("modulo by zero in expression"@),
        ),
        a == i64::MIN && b == -1 ==> eval::combined(BinOp::Div, l, r) == Err::<
            ValueModel,
            ErrorModel,
        >(ErrorModel::Protocol("division overflow in expression"@)),
        a == i64::MIN && b == -1 ==> eval::combined(BinOp::Mod, l, r) == Err::<
            ValueModel,
            ErrorModel,
        >(ErrorModel::Protocol("modulo overflow in expression"@)),
{
}

/// A character that no token begins with is named. The signs that need a second
/// character are such characters where they stand alone.
pub proof fn law_strange_characters_are_named(c: char, b: Seq<char>)
    requires
        !text::whitespace(c) && !text::alphanumeric(c) && !text::alphabetic(c),
        c != '_' && c != '(' && c != ')' && c != '.' && c != '"' && c != '\'',
        c != '+' && c != '-' && c != '*' && c != '/' && c != '%' && c != '<' && c != '>',
        c != '&' && c != '|' && c != '^',
        c == '=' || c == '!' ==> b.len() == 0 || b[0] != '=',
    ensures
        token::tokens_from(seq![c] + b, 0) == Err::<Seq<TokenModel>, ErrorModel>(
            ErrorModel::Protocol("unexpected character `"@ + seq![c] + "` in expression"@),
        ),
{
    let s = seq![c] + b;
    assert(s[0] == c);
    if b.len() > 0 {
        assert(s[1] == b[0]);
    }
}

// ---------------------------------------------------------------------------
// Documents
// ---------------------------------------------------------------------------

/// The error about a type is that about the first of its fields that is wrong.
pub proof fn law_the_first_wrong_field_is_the_error(
    m: Mapping,
    items: Seq<YamlModel>,
    k: int,
    e: ErrorModel,
)
    requires
        yaml::under(m, "seq"@) is Some,
        yaml::under(m, "seq"@)->0.node == NodeModel::Sequence(items),
        0 <= k < items.len(),
        schema::field(items[k]) == Err::<FieldModel, ErrorModel>(e),
        forall|j: int| 0 <= j < k ==> schema::field(#[trigger] items[j]) is Ok,
    ensures
        schema::type_body(m) == Err::<TypeModel, ErrorModel>(e),
{
    documents::lemma_fields(items, 0, Seq::empty());
}

/// The error about a field names it, or is that of an expression or a switch in
/// it, or there is no name.
pub proof fn law_wrong_fields_are_named(m: Mapping, id: Seq<char>, y: YamlModel)
    requires
        yaml::as_mapping(y) == Some(m),
        documents::string_at(m, "id"@) == Some(id),
        yaml::under(m, "type"@) is None,
        yaml::under(m, "size"@) is None,
    ensures
        match yaml::under(m, "if"@) {
            Some(v) => match v.node {
                NodeModel::Str(s) => expr::parsed(s) is Err ==> schema::field(y) == Err::<
                    FieldModel,
                    ErrorModel,
                >(expr::parsed(s)->Err_0),
                _ => schema::field(y) == Err::<FieldModel, ErrorModel>(
                    ErrorModel::Protocol(
                        "field `"@ + id + "`: `if` must be a string expression, found "@ + v.debug,
                    ),
                ),
            },
            None => match documents::string_at(m, "repeat"@) {
                Some(mode) => mode != "expr"@ && mode != "until"@ && mode != "eos"@
                    ==> schema::field(y) == Err::<FieldModel, ErrorModel>(
                    ErrorModel::Protocol(
                        "field `"@ + id + "`: unknown `repeat` mode `"@ + (mode + "`"@),
                    ),
                ),
                None => match yaml::under(m, "contents"@) {
                    Some(v) => !(v.node is Str) && !(v.node is Sequence) ==> schema::field(y)
                        == Err::<FieldModel, ErrorModel>(
                        ErrorModel::Protocol(
                            "field `"@ + id + "`: unsupported `contents` value "@ + v.debug,
                        ),
                    ),
                    None => schema::field(y) is Ok,
                },
            },
        },
{
}

/// The error about a text that is no YAML has the words of the reader, and an
/// unknown byte order is quoted.
pub proof fn law_what_is_wrong_with_a_document(source: Seq<char>, y: YamlModel)
    ensures
        yaml::yaml_read(source) matches Err(m) ==> schema::schema_of(source) == Err::<
            schema::SchemaModel,
            ErrorModel,
        >(ErrorModel::Protocol("invalid YAML: "@ + m)),
        yaml::as_mapping(y) is Some ==> match documents::given_order(yaml::as_mapping(y)->0) {
            Some(o) => o != "le"@ && o != "be"@ ==> schema::document(y) == Err::<
                schema::SchemaModel,
                ErrorModel,
            >(ErrorModel::Protocol("unknown endian `"@ + o + "`"@)),
            None => true,
        },
{
}

} // verus!
