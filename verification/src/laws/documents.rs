//! From the text of a document to a schema.
use vstd::prelude::*;

#[allow(unused_imports)]
use crate::{
    error::ErrorModel, ksy::expr, ksy::expr::ExprModel, ksy::schema, ksy::schema::CaseModel,
    ksy::schema::Endian, ksy::schema::FieldModel, ksy::schema::PrimType, ksy::schema::RepeatModel,
    ksy::schema::SchemaModel, ksy::schema::TypeModel, ksy::schema::TypeSpecModel, ksy::yaml,
    ksy::yaml::NodeModel, ksy::yaml::YamlModel, named,
};

verus! {

/// The entries of a mapping.
pub type Mapping = Seq<(YamlModel, YamlModel)>;

// ---------------------------------------------------------------------------
// Nodes
// ---------------------------------------------------------------------------

/// A mapping has under a key the value of the first entry with that key, and
/// nothing where no entry has it.
pub proof fn law_keys_lead_to_their_values(m: Mapping, key: Seq<char>)
    ensures
        match yaml::under(m, key) {
            Some(v) => exists|i: int|
                0 <= i < m.len() && (#[trigger] m[i]).1 == v && m[i].0.node == NodeModel::Str(key)
                    && forall|j: int| 0 <= j < i ==> (#[trigger] m[j]).0.node != NodeModel::Str(key),
            None => forall|i: int|
                0 <= i < m.len() ==> (#[trigger] m[i]).0.node != NodeModel::Str(key),
        },
    decreases m.len(),
{
    if m.len() > 0 {
        if m[0].0.node == NodeModel::Str(key) {
            assert(m[0].1 == yaml::under(m, key)->0);
        } else {
            let rest = m.drop_first();
            law_keys_lead_to_their_values(rest, key);
            assert(forall|i: int| 0 <= i < rest.len() ==> rest[i] == m[i + 1]);
            match yaml::under(m, key) {
                Some(v) => {
                    let i = choose|i: int|
                        0 <= i < rest.len() && (#[trigger] rest[i]).1 == v && rest[i].0.node
                            == NodeModel::Str(key) && forall|j: int|
                            0 <= j < i ==> (#[trigger] rest[j]).0.node != NodeModel::Str(key);
                    assert(m[i + 1].1 == v);
                    assert forall|j: int| 0 <= j < i + 1 implies (#[trigger] m[j]).0.node
                        != NodeModel::Str(key) by {
                        if j > 0 {
                            assert(rest[j - 1] == m[j]);
                        }
                    }
                },
                None => {
                    assert forall|i: int| 0 <= i < m.len() implies (#[trigger] m[i]).0.node
                        != NodeModel::Str(key) by {
                        if i > 0 {
                            assert(rest[i - 1] == m[i]);
                        }
                    }
                },
            }
        }
    }
}

/// What a node holds is seen through its tags.
pub proof fn law_tags_are_looked_through(y: YamlModel)
    ensures
        match y.node {
            NodeModel::Tagged(inner) => {
                &&& yaml::as_str(y) == yaml::as_str(*inner)
                &&& yaml::as_bool(y) == yaml::as_bool(*inner)
                &&& yaml::as_i64(y) == yaml::as_i64(*inner)
                &&& yaml::as_mapping(y) == yaml::as_mapping(*inner)
            },
            node => {
                &&& match yaml::as_str(y) {
                    Some(s) => node == NodeModel::Str(s),
                    None => !(node is Str),
                }
                &&& match yaml::as_bool(y) {
                    Some(b) => node == NodeModel::Bool(b),
                    None => !(node is Bool),
                }
                &&& match yaml::as_i64(y) {
                    Some(n) => node == NodeModel::Number(Some(n)),
                    None => !(node is Number) || node == NodeModel::Number(None),
                }
                &&& match yaml::as_mapping(y) {
                    Some(m) => node == NodeModel::Mapping(m),
                    None => !(node is Mapping),
                }
            },
        },
{
}

// ---------------------------------------------------------------------------
// Fields, key by key
// ---------------------------------------------------------------------------

/// The string under a key, through tags.
pub open spec fn string_at(m: Mapping, key: Seq<char>) -> Option<Seq<char>> {
    match yaml::under(m, key) {
        Some(v) => yaml::as_str(v),
        None => None,
    }
}

/// A field's condition is the expression under `if`, whatever its other keys
/// are; without that key it has none.
pub proof fn law_a_field_keeps_its_condition(m: Mapping, y: YamlModel, f: FieldModel)
    requires
        yaml::as_mapping(y) == Some(m),
        schema::field(y) == Ok::<FieldModel, ErrorModel>(f),
    ensures
        match yaml::under(m, "if"@) {
            None => f.if_cond is None,
            Some(v) => match v.node {
                NodeModel::Str(s) => f.if_cond is Some && expr::parsed(s) == Ok::<
                    ExprModel,
                    ErrorModel,
                >(f.if_cond->0),
                _ => false,
            },
        },
{
}

/// A field's name is the string under `id`, its encoding that under `encoding`
/// and its enumeration that under `enum`, where there are such; it takes the
/// rest of the data exactly where `size-eos` is true.
pub proof fn law_a_field_keeps_its_names(m: Mapping, y: YamlModel, f: FieldModel)
    requires
        yaml::as_mapping(y) == Some(m),
        schema::field(y) == Ok::<FieldModel, ErrorModel>(f),
    ensures
        string_at(m, "id"@) == Some(f.id),
        f.encoding == string_at(m, "encoding"@),
        f.enum_name == string_at(m, "enum"@),
        f.size_eos == (yaml::under(m, "size-eos"@) is Some && yaml::as_bool(
            yaml::under(m, "size-eos"@)->0,
        ) == Some(true)),
{
}

/// A field's size is the number or the expression under `size`, whatever its
/// other keys are.
pub proof fn law_a_field_keeps_its_size(m: Mapping, y: YamlModel, f: FieldModel)
    requires
        yaml::as_mapping(y) == Some(m),
        schema::field(y) == Ok::<FieldModel, ErrorModel>(f),
    ensures
        match yaml::under(m, "size"@) {
            None => f.size is None,
            Some(v) => match v.node {
                NodeModel::Str(s) => f.size is Some && expr::parsed(s) == Ok::<
                    ExprModel,
                    ErrorModel,
                >(f.size->0),
                NodeModel::Number(Some(n)) => f.size == Some(ExprModel::Int(n)),
                _ => false,
            },
        },
{
}

/// A field is repeated as `repeat` says, by the expression under `repeat-expr` or
/// `repeat-until`, whatever its other keys are.
pub proof fn law_a_field_keeps_its_repetition(m: Mapping, y: YamlModel, f: FieldModel)
    requires
        yaml::as_mapping(y) == Some(m),
        schema::field(y) == Ok::<FieldModel, ErrorModel>(f),
    ensures
        string_at(m, "repeat"@) is None ==> f.repeat is None,
        string_at(m, "repeat"@) == Some("eos"@) ==> f.repeat == Some(RepeatModel::Eos),
        string_at(m, "repeat"@) == Some("until"@) ==> {
            &&& string_at(m, "repeat-until"@) is Some
            &&& f.repeat is Some
            &&& f.repeat->0 is Until
            &&& expr::parsed(string_at(m, "repeat-until"@)->0) == Ok::<ExprModel, ErrorModel>(
                f.repeat->0->Until_0,
            )
        },
        string_at(m, "repeat"@) == Some("expr"@) ==> {
            &&& yaml::under(m, "repeat-expr"@) is Some
            &&& f.repeat is Some
            &&& f.repeat->0 is Expr
            &&& match yaml::under(m, "repeat-expr"@)->0.node {
                NodeModel::Str(s) => expr::parsed(s) == Ok::<ExprModel, ErrorModel>(
                    f.repeat->0->Expr_0,
                ),
                NodeModel::Number(Some(n)) => f.repeat->0->Expr_0 == ExprModel::Int(n),
                _ => false,
            }
        },
        string_at(m, "repeat"@) matches Some(s) ==> s == "eos"@ || s == "until"@ || s == "expr"@,
{
    reveal_strlit("eos");
    reveal_strlit("until");
    reveal_strlit("expr");
    assert("eos"@.len() == 3 && "until"@.len() == 5 && "expr"@.len() == 4);
}

proof fn lemma_bytes(items: Seq<YamlModel>, i: int, id: Seq<char>, done: Seq<u8>)
    requires
        0 <= i <= items.len(),
        done.len() == i,
    ensures
        match schema::bytes_from(items, i, id, done) {
            Ok(b) => {
                &&& b.len() == items.len()
                &&& forall|k: int| 0 <= k < i ==> b[k] == #[trigger] done[k]
                &&& forall|k: int|
                    i <= k < items.len() ==> match yaml::as_i64(#[trigger] items[k]) {
                        Some(n) => b[k] == n,
                        None => false,
                    }
            },
            Err(_) => exists|k: int|
                i <= k < items.len() && match yaml::as_i64(#[trigger] items[k]) {
                    Some(n) => n < 0 || n > 255,
                    None => true,
                },
        },
    decreases items.len() - i,
{
    if i < items.len() {
        let here = yaml::as_i64(items[i]);
        if let Some(n) = here {
            if 0 <= n <= 255 {
                lemma_bytes(items, i + 1, id, done.push(n as u8));
                if let Ok(b) = schema::bytes_from(items, i, id, done) {
                    assert(done.push(n as u8)[i] == n);
                    assert(b[i] == n);
                    assert forall|k: int| 0 <= k < i implies b[k] == #[trigger] done[k] by {
                        assert(done.push(n as u8)[k] == done[k]);
                    }
                }
            }
        }
    }
}

/// A field's magic bytes are those of the string under `contents`, or the numbers
/// of the list there, one byte each.
pub proof fn law_a_field_keeps_its_contents(m: Mapping, y: YamlModel, f: FieldModel)
    requires
        yaml::as_mapping(y) == Some(m),
        schema::field(y) == Ok::<FieldModel, ErrorModel>(f),
    ensures
        match yaml::under(m, "contents"@) {
            None => f.contents is None,
            Some(v) => match v.node {
                NodeModel::Str(s) => f.contents == Some(vstd::utf8::encode_utf8(s)),
                NodeModel::Sequence(items) => {
                    &&& f.contents is Some
                    &&& f.contents->0.len() == items.len()
                    &&& forall|k: int|
                        0 <= k < items.len() ==> match yaml::as_i64(#[trigger] items[k]) {
                            Some(n) => f.contents->0[k] == n,
                            None => false,
                        }
                },
                _ => false,
            },
        },
{
    if let Some(v) = yaml::under(m, "contents"@) {
        if let NodeModel::Sequence(items) = v.node {
            lemma_bytes(items, 0, f.id, Seq::empty());
        }
    }
}

/// The type that a name stands for: the primitive type of that name, or else the
/// type that the schema defines under it.
pub open spec fn is_type_of(t: TypeSpecModel, name: Seq<char>) -> bool {
    match t {
        TypeSpecModel::Primitive(p) => schema::prim_type(name) == Some(p),
        TypeSpecModel::Named(n) => schema::prim_type(name) is None && n == name,
        TypeSpecModel::Switch { .. } => false,
    }
}

/// A case of a switch is what its key and its value in the mapping say: the
/// underscore is the default, a number stands for itself, and any other string
/// is an expression.
pub open spec fn is_case_of(
    c: (CaseModel, TypeSpecModel),
    entry: (YamlModel, YamlModel),
) -> bool {
    &&& match entry.0.node {
        NodeModel::Str(s) => if s == "_"@ {
            c.0 is Default
        } else {
            c.0 is Value && expr::parsed(s) == Ok::<ExprModel, ErrorModel>(c.0->Value_0)
        },
        NodeModel::Number(Some(n)) => c.0 == CaseModel::Value(ExprModel::Int(n)),
        _ => false,
    }
    &&& match entry.1.node {
        NodeModel::Str(s) => is_type_of(c.1, s),
        _ => false,
    }
}

/// An entry of the mapping can be a case.
pub open spec fn can_be_case(entry: (YamlModel, YamlModel)) -> bool {
    &&& entry.1.node is Str
    &&& match entry.0.node {
        NodeModel::Str(s) => s == "_"@ || expr::parsed(s) is Ok,
        NodeModel::Number(n) => n is Some,
        _ => false,
    }
}

proof fn lemma_cases(m: Mapping, i: int, done: Seq<(CaseModel, TypeSpecModel)>)
    requires
        0 <= i <= m.len(),
        done.len() == i,
    ensures
        match schema::cases_from(m, i, done) {
            Ok(cases) => {
                &&& cases.len() == m.len()
                &&& forall|k: int| 0 <= k < i ==> cases[k] == #[trigger] done[k]
                &&& forall|k: int|
                    i <= k < m.len() ==> is_case_of(cases[k], #[trigger] m[k]) && can_be_case(m[k])
            },
            Err(_) => exists|k: int| i <= k < m.len() && !can_be_case(#[trigger] m[k]),
        },
    decreases m.len() - i,
{
    if i < m.len() {
        match (schema::case_key(m[i].0), schema::case_type(m[i].1)) {
            (Ok(case), Ok(t)) => {
                let next = done.push((case, t));
                lemma_cases(m, i + 1, next);
                if let Ok(cases) = schema::cases_from(m, i, done) {
                    assert(next[i] == (case, t));
                    assert(cases[i] == (case, t));
                    assert(is_case_of(cases[i], m[i]));
                    assert forall|k: int| 0 <= k < i implies cases[k] == #[trigger] done[k] by {
                        assert(next[k] == done[k]);
                    }
                }
            },
            _ => {
                assert(!can_be_case(m[i]));
            },
        }
    }
}

/// A field's type is that of the name under `type`, and its byte order that of a
/// suffix of the name; or it is the switch that a mapping there describes, with
/// all its cases in their order.
pub proof fn law_a_field_keeps_its_type(m: Mapping, y: YamlModel, f: FieldModel)
    requires
        yaml::as_mapping(y) == Some(m),
        schema::field(y) == Ok::<FieldModel, ErrorModel>(f),
    ensures
        match yaml::under(m, "type"@) {
            None => f.type_spec is None && f.endian_override is None,
            Some(v) => match v.node {
                NodeModel::Str(s) => {
                    &&& f.type_spec is Some
                    &&& is_type_of(f.type_spec->0, s)
                    &&& f.endian_override == schema::type_endian(s)
                },
                NodeModel::Mapping(inner) => {
                    &&& f.endian_override is None
                    &&& f.type_spec is Some
                    &&& match f.type_spec->0 {
                        TypeSpecModel::Switch { on, cases } => {
                            &&& string_at(inner, "switch-on"@) is Some
                            &&& expr::parsed(string_at(inner, "switch-on"@)->0) == Ok::<
                                ExprModel,
                                ErrorModel,
                            >(on)
                            &&& yaml::under(inner, "cases"@) is Some
                            &&& match yaml::as_mapping(yaml::under(inner, "cases"@)->0) {
                                Some(entries) => cases.len() == entries.len() && forall|k: int|
                                    0 <= k < cases.len() ==> is_case_of(
                                        cases[k],
                                        #[trigger] entries[k],
                                    ),
                                None => false,
                            }
                        },
                        _ => false,
                    }
                },
                _ => false,
            },
        },
{
    if let Some(v) = yaml::under(m, "type"@) {
        if let NodeModel::Mapping(inner) = v.node {
            if let Some(c) = yaml::under(inner, "cases"@) {
                if let Some(entries) = yaml::as_mapping(c) {
                    lemma_cases(entries, 0, Seq::empty());
                }
            }
        }
    }
}

/// The value under a key is a string that is an expression.
pub open spec fn gives_expression(v: YamlModel) -> bool {
    v.node is Str && expr::parsed(v.node->Str_0) is Ok
}

/// A mapping describes a switch.
pub open spec fn gives_switch(inner: Mapping) -> bool {
    &&& string_at(inner, "switch-on"@) is Some
    &&& expr::parsed(string_at(inner, "switch-on"@)->0) is Ok
    &&& yaml::under(inner, "cases"@) is Some
    &&& yaml::as_mapping(yaml::under(inner, "cases"@)->0) is Some
    &&& forall|k: int|
        0 <= k < yaml::as_mapping(yaml::under(inner, "cases"@)->0)->0.len() ==> can_be_case(
            #[trigger] yaml::as_mapping(yaml::under(inner, "cases"@)->0)->0[k],
        )
}

/// All that is said of a field can be understood.
pub open spec fn understandable(m: Mapping) -> bool {
    &&& string_at(m, "id"@) is Some
    &&& yaml::under(m, "type"@) matches Some(v) ==> v.node is Str || (v.node is Mapping
        && gives_switch(v.node->Mapping_0))
    &&& yaml::under(m, "size"@) matches Some(v) ==> gives_expression(v) || (v.node is Number
        && v.node->Number_0 is Some)
    &&& yaml::under(m, "if"@) matches Some(v) ==> gives_expression(v)
    &&& string_at(m, "repeat"@) matches Some(s) ==> {
        ||| s == "eos"@
        ||| s == "until"@ && string_at(m, "repeat-until"@) is Some && expr::parsed(
            string_at(m, "repeat-until"@)->0,
        ) is Ok
        ||| s == "expr"@ && yaml::under(m, "repeat-expr"@) is Some && (gives_expression(
            yaml::under(m, "repeat-expr"@)->0,
        ) || (yaml::under(m, "repeat-expr"@)->0.node is Number && yaml::under(
            m,
            "repeat-expr"@,
        )->0.node->Number_0 is Some))
    }
    &&& yaml::under(m, "contents"@) matches Some(v) ==> v.node is Str || (v.node is Sequence
        && forall|k: int|
        0 <= k < v.node->Sequence_0.len() ==> match yaml::as_i64(
            #[trigger] v.node->Sequence_0[k],
        ) {
            Some(n) => 0 <= n <= 255,
            None => false,
        })
}

/// A field is read exactly where it is a mapping in which all that is said can be
/// understood.
pub proof fn law_which_fields_are_read(y: YamlModel)
    ensures
        (schema::field(y) is Ok) == (yaml::as_mapping(y) is Some && understandable(
            yaml::as_mapping(y)->0,
        )),
{
    reveal_strlit("eos");
    reveal_strlit("until");
    reveal_strlit("expr");
    assert("eos"@.len() == 3 && "until"@.len() == 5 && "expr"@.len() == 4);
    if let Some(m) = yaml::as_mapping(y) {
        if let Some(id) = schema::text_under(m, "id"@) {
            if let Some(v) = yaml::under(m, "contents"@) {
                if let NodeModel::Sequence(items) = v.node {
                    lemma_bytes(items, 0, id, Seq::empty());
                }
            }
            if let Some(v) = yaml::under(m, "type"@) {
                if let NodeModel::Mapping(inner) = v.node {
                    lemma_switch(inner);
                }
            }
        }
    }
}

proof fn lemma_switch(inner: Mapping)
    ensures
        (schema::switch_type(inner) is Ok) == gives_switch(inner),
{
    if let Some(c) = yaml::under(inner, "cases"@) {
        if let Some(entries) = yaml::as_mapping(c) {
            lemma_cases(entries, 0, Seq::empty());
        }
    }
}

// ---------------------------------------------------------------------------
// Types
// ---------------------------------------------------------------------------

pub(crate) proof fn lemma_fields(items: Seq<YamlModel>, i: int, done: Seq<FieldModel>)
    requires
        0 <= i <= items.len(),
        done.len() == i,
    ensures
        match schema::fields_from(items, i, done) {
            Ok(f) => {
                &&& f.len() == items.len()
                &&& forall|k: int| 0 <= k < i ==> f[k] == #[trigger] done[k]
                &&& forall|k: int|
                    i <= k < items.len() ==> schema::field(#[trigger] items[k]) == Ok::<
                        FieldModel,
                        ErrorModel,
                    >(f[k])
            },
            Err(e) => exists|k: int|
                i <= k < items.len() && schema::field(#[trigger] items[k]) == Err::<
                    FieldModel,
                    ErrorModel,
                >(e) && forall|j: int| i <= j < k ==> schema::field(#[trigger] items[j]) is Ok,
        },
    decreases items.len() - i,
{
    if i < items.len() {
        match schema::field(items[i]) {
            Ok(x) => {
                let next = done.push(x);
                lemma_fields(items, i + 1, next);
                match schema::fields_from(items, i, done) {
                    Ok(f) => {
                        assert(next[i] == x);
                        assert(f[i] == x);
                        assert forall|k: int| 0 <= k < i implies f[k] == #[trigger] done[k] by {
                            assert(next[k] == done[k]);
                        }
                    },
                    Err(e) => {
                        let k = choose|k: int|
                            i + 1 <= k < items.len() && schema::field(#[trigger] items[k]) == Err::<
                                FieldModel,
                                ErrorModel,
                            >(e) && forall|j: int|
                                i + 1 <= j < k ==> schema::field(#[trigger] items[j]) is Ok;
                        assert(schema::field(items[k]) is Err);
                    },
                }
            },
            Err(e) => {
                assert(schema::field(items[i]) == Err::<FieldModel, ErrorModel>(e));
            },
        }
    }
}

/// A type has the fields of the list under `seq`, each in its place and none
/// left out; without the list it has none. The first field that cannot be read
/// is the error.
pub proof fn law_a_type_has_the_fields_of_its_list(m: Mapping)
    ensures
        match yaml::under(m, "seq"@) {
            None => schema::type_body(m) matches Ok(t) ==> t.seq.len() == 0,
            Some(v) => match v.node {
                NodeModel::Sequence(items) => match schema::type_body(m) {
                    Ok(t) => t.seq.len() == items.len() && forall|k: int|
                        0 <= k < items.len() ==> schema::field(#[trigger] items[k]) == Ok::<
                            FieldModel,
                            ErrorModel,
                        >(t.seq[k]),
                    Err(e) => (forall|k: int|
                        0 <= k < items.len() ==> schema::field(#[trigger] items[k]) is Ok) || (
                    exists|k: int|
                        0 <= k < items.len() && schema::field(#[trigger] items[k]) == Err::<
                            FieldModel,
                            ErrorModel,
                        >(e)),
                },
                _ => schema::type_body(m) is Err,
            },
        },
{
    if let Some(v) = yaml::under(m, "seq"@) {
        if let NodeModel::Sequence(items) = v.node {
            lemma_fields(items, 0, Seq::empty());
        }
    }
}

/// The entry is that of the last of the first `n` with its name.
pub open spec fn last_with_name(m: Mapping, n: int, k: int, name: Seq<char>) -> bool {
    &&& 0 <= k < n <= m.len()
    &&& yaml::as_str(m[k].0) == Some(name)
    &&& forall|j: int| k < j < n ==> yaml::as_str((#[trigger] m[j]).0) != Some(name)
}

proof fn lemma_types(m: Mapping, i: int, done: Seq<(Seq<char>, TypeModel)>)
    requires
        0 <= i <= m.len(),
        named::distinct_names(done),
    ensures
        match schema::types_from(m, i, done) {
            Ok(t) => {
                &&& named::distinct_names(t)
                &&& forall|k: int|
                    i <= k < m.len() ==> yaml::as_str((#[trigger] m[k]).0) is Some
                        && yaml::as_mapping(m[k].1) is Some && schema::type_body(
                        yaml::as_mapping(m[k].1)->0,
                    ) is Ok
                &&& forall|k: int, name: Seq<char>|
                    i <= k && #[trigger] last_with_name(m, m.len() as int, k, name)
                        ==> named::find_entry(t, name) == Some(
                        schema::type_body(yaml::as_mapping(m[k].1)->0)->Ok_0,
                    )
                &&& forall|name: Seq<char>|
                    (forall|k: int|
                        i <= k < m.len() ==> yaml::as_str((#[trigger] m[k]).0) != Some(name))
                        ==> #[trigger] named::find_entry(t, name) == named::find_entry(done, name)
            },
            Err(_) => exists|k: int|
                i <= k < m.len() && (yaml::as_str((#[trigger] m[k]).0) is None || yaml::as_mapping(
                    m[k].1,
                ) is None || schema::type_body(yaml::as_mapping(m[k].1)->0) is Err),
        },
    decreases m.len() - i,
{
    if i < m.len() {
        if let Some(name) = yaml::as_str(m[i].0) {
            if let Some(def) = yaml::as_mapping(m[i].1) {
                if let Ok(d) = schema::type_body(def) {
                    let next = named::put_entry(done, name, d);
                    named::lemma_put_distinct(done, name, d);
                    lemma_types(m, i + 1, next);
                    if let Ok(t) = schema::types_from(m, i, done) {
                        named::law_what_was_put_is_found(done, name, d, name);
                        assert forall|k: int, x: Seq<char>|
                            i <= k && #[trigger] last_with_name(
                                m,
                                m.len() as int,
                                k,
                                x,
                            ) implies named::find_entry(t, x) == Some(
                            schema::type_body(yaml::as_mapping(m[k].1)->0)->Ok_0,
                        ) by {
                            if k == i {
                                assert(x == name);
                                assert(named::find_entry(t, x) == named::find_entry(next, x));
                            }
                        }
                        assert forall|x: Seq<char>|
                            (forall|k: int|
                                i <= k < m.len() ==> yaml::as_str((#[trigger] m[k]).0) != Some(
                                    x,
                                )) implies #[trigger] named::find_entry(t, x)
                            == named::find_entry(done, x) by {
                            assert(yaml::as_str(m[i].0) != Some(x));
                            named::law_what_was_put_is_found(done, name, d, x);
                            assert(named::find_entry(t, x) == named::find_entry(next, x));
                        }
                    }
                }
            }
        }
    }
}

/// A type defines the types of the mapping under `types`, each under its name as
/// its own mapping says, the later where a name stands twice, and no others.
pub proof fn law_a_type_defines_the_types_of_its_mapping(m: Mapping, t: TypeModel)
    requires
        schema::type_body(m) == Ok::<TypeModel, ErrorModel>(t),
    ensures
        named::distinct_names(t.types),
        match yaml::under(m, "types"@) {
            None => t.types.len() == 0,
            Some(v) => match v.node {
                NodeModel::Mapping(entries) => {
                    &&& forall|k: int, name: Seq<char>| #[trigger]
                        last_with_name(entries, entries.len() as int, k, name) ==> {
                            &&& yaml::as_mapping(entries[k].1) is Some
                            &&& named::find_entry(t.types, name) is Some
                            &&& schema::type_body(yaml::as_mapping(entries[k].1)->0) == Ok::<
                                TypeModel,
                                ErrorModel,
                            >(named::find_entry(t.types, name)->0)
                        }
                    &&& forall|name: Seq<char>|
                        (forall|k: int|
                            0 <= k < entries.len() ==> yaml::as_str((#[trigger] entries[k]).0)
                                != Some(name)) ==> #[trigger] named::find_entry(t.types, name)
                            is None
                },
                _ => false,
            },
        },
{
    if let Some(v) = yaml::under(m, "types"@) {
        if let NodeModel::Mapping(entries) = v.node {
            lemma_types(entries, 0, Seq::empty());
        }
    }
}

/// Entry `k` is the last with its number.
pub open spec fn last_with_number(m: Mapping, k: int, n: i64) -> bool {
    &&& 0 <= k < m.len()
    &&& yaml::as_i64(m[k].0) == Some(n)
    &&& forall|j: int| k < j < m.len() ==> yaml::as_i64((#[trigger] m[j]).0) != Some(n)
}

/// No entry from `i` on has the number.
pub open spec fn no_such_number(m: Mapping, i: int, n: i64) -> bool {
    forall|k: int| i <= k < m.len() ==> yaml::as_i64((#[trigger] m[k]).0) != Some(n)
}

proof fn lemma_symbols(m: Mapping, i: int, name: Seq<char>, done: Map<i64, Seq<char>>)
    requires
        0 <= i <= m.len(),
    ensures
        match schema::symbols_from(m, i, name, done) {
            Ok(s) => {
                &&& forall|k: int|
                    i <= k < m.len() ==> yaml::as_i64((#[trigger] m[k]).0) is Some && yaml::as_str(
                        m[k].1,
                    ) is Some
                &&& forall|k: int, n: i64|
                    i <= k && #[trigger] last_with_number(m, k, n) ==> s.contains_key(n) && Some(
                        s[n],
                    ) == yaml::as_str(m[k].1)
                &&& forall|n: i64| #[trigger]
                    no_such_number(m, i, n) ==> s.contains_key(n) == done.contains_key(n) && (
                    done.contains_key(n) ==> s[n] == done[n])
            },
            Err(_) => exists|k: int|
                i <= k < m.len() && (yaml::as_i64((#[trigger] m[k]).0) is None || yaml::as_str(
                    m[k].1,
                ) is None),
        },
    decreases m.len() - i,
{
    if i < m.len() {
        if let Some(value) = yaml::as_i64(m[i].0) {
            if let Some(symbol) = yaml::as_str(m[i].1) {
                let next = done.insert(value, symbol);
                lemma_symbols(m, i + 1, name, next);
                if let Ok(s) = schema::symbols_from(m, i, name, done) {
                    assert forall|k: int, n: i64|
                        i <= k && #[trigger] last_with_number(m, k, n) implies s.contains_key(n)
                        && Some(s[n]) == yaml::as_str(m[k].1) by {
                        if k == i {
                            assert(n == value);
                            assert(no_such_number(m, i + 1, n));
                        }
                    }
                    assert forall|n: i64| #[trigger] no_such_number(m, i, n) implies s.contains_key(
                        n,
                    ) == done.contains_key(n) && (done.contains_key(n) ==> s[n] == done[n]) by {
                        assert(yaml::as_i64(m[i].0) != Some(n));
                        assert(no_such_number(m, i + 1, n));
                    }
                }
            }
        }
    }
}

/// An enumeration has for each number of its mapping the symbol there, the later
/// where a number stands twice, and for no other number one.
pub proof fn law_an_enumeration_has_the_symbols_of_its_mapping(
    m: Mapping,
    name: Seq<char>,
    s: Map<i64, Seq<char>>,
)
    requires
        schema::symbols_from(m, 0, name, Map::empty()) == Ok::<Map<i64, Seq<char>>, ErrorModel>(s),
    ensures
        forall|k: int, n: i64| #[trigger]
            last_with_number(m, k, n) ==> s.contains_key(n) && Some(s[n]) == yaml::as_str(m[k].1),
        forall|n: i64| #[trigger] no_such_number(m, 0, n) ==> !s.contains_key(n),
{
    lemma_symbols(m, 0, name, Map::empty());
}

/// An entry of the mapping can be an enumeration: a name, and a mapping from
/// integers to strings.
pub open spec fn can_be_enumeration(entry: (YamlModel, YamlModel)) -> bool {
    &&& yaml::as_str(entry.0) is Some
    &&& yaml::as_mapping(entry.1) is Some
    &&& forall|k: int|
        0 <= k < yaml::as_mapping(entry.1)->0.len() ==> yaml::as_i64(
            (#[trigger] yaml::as_mapping(entry.1)->0[k]).0,
        ) is Some && yaml::as_str(yaml::as_mapping(entry.1)->0[k].1) is Some
}

proof fn lemma_enums(m: Mapping, i: int, done: Seq<(Seq<char>, Map<i64, Seq<char>>)>)
    requires
        0 <= i <= m.len(),
        named::distinct_names(done),
    ensures
        match schema::enums_from(m, i, done) {
            Ok(t) => {
                &&& named::distinct_names(t)
                &&& forall|k: int, name: Seq<char>|
                    i <= k && #[trigger] last_with_name(m, m.len() as int, k, name) ==> {
                        &&& yaml::as_mapping(m[k].1) is Some
                        &&& named::find_entry(t, name) is Some
                        &&& schema::symbols_from(
                            yaml::as_mapping(m[k].1)->0,
                            0,
                            name,
                            Map::empty(),
                        ) == Ok::<Map<i64, Seq<char>>, ErrorModel>(named::find_entry(t, name)->0)
                    }
                &&& forall|name: Seq<char>|
                    (forall|k: int|
                        i <= k < m.len() ==> yaml::as_str((#[trigger] m[k]).0) != Some(name))
                        ==> #[trigger] named::find_entry(t, name) == named::find_entry(done, name)
            },
            Err(_) => exists|k: int| i <= k < m.len() && !can_be_enumeration(#[trigger] m[k]),
        },
        schema::enums_from(m, i, done) is Ok ==> forall|k: int|
            i <= k < m.len() ==> can_be_enumeration(#[trigger] m[k]),
    decreases m.len() - i,
{
    if i < m.len() {
        if let Some(name) = yaml::as_str(m[i].0) {
            if let Some(values) = yaml::as_mapping(m[i].1) {
                lemma_symbols(values, 0, name, Map::empty());
                if let Ok(d) = schema::symbols_from(values, 0, name, Map::empty()) {
                    let next = named::put_entry(done, name, d);
                    named::lemma_put_distinct(done, name, d);
                    lemma_enums(m, i + 1, next);
                    if let Ok(t) = schema::enums_from(m, i, done) {
                        named::law_what_was_put_is_found(done, name, d, name);
                        assert forall|k: int, x: Seq<char>|
                            i <= k && #[trigger] last_with_name(m, m.len() as int, k, x) implies {
                            &&& yaml::as_mapping(m[k].1) is Some
                            &&& named::find_entry(t, x) is Some
                            &&& schema::symbols_from(
                                yaml::as_mapping(m[k].1)->0,
                                0,
                                x,
                                Map::empty(),
                            ) == Ok::<Map<i64, Seq<char>>, ErrorModel>(named::find_entry(t, x)->0)
                        } by {
                            if k == i {
                                assert(x == name);
                                assert(named::find_entry(t, x) == named::find_entry(next, x));
                            }
                        }
                        assert forall|x: Seq<char>|
                            (forall|k: int|
                                i <= k < m.len() ==> yaml::as_str((#[trigger] m[k]).0) != Some(
                                    x,
                                )) implies #[trigger] named::find_entry(t, x)
                            == named::find_entry(done, x) by {
                            assert(yaml::as_str(m[i].0) != Some(x));
                            named::law_what_was_put_is_found(done, name, d, x);
                            assert(named::find_entry(t, x) == named::find_entry(next, x));
                        }
                    }
                }
            }
        }
    }
}

/// A type has the enumerations of the mapping under `enums`, each under its name,
/// and no others.
pub proof fn law_a_type_has_the_enumerations_of_its_mapping(m: Mapping, t: TypeModel)
    requires
        schema::type_body(m) == Ok::<TypeModel, ErrorModel>(t),
    ensures
        named::distinct_names(t.enums),
        match yaml::under(m, "enums"@) {
            None => t.enums.len() == 0,
            Some(v) => match v.node {
                NodeModel::Mapping(entries) => {
                    &&& forall|k: int, name: Seq<char>| #[trigger]
                        last_with_name(entries, entries.len() as int, k, name) ==> {
                            &&& yaml::as_mapping(entries[k].1) is Some
                            &&& named::find_entry(t.enums, name) is Some
                            &&& schema::symbols_from(
                                yaml::as_mapping(entries[k].1)->0,
                                0,
                                name,
                                Map::empty(),
                            ) == Ok::<Map<i64, Seq<char>>, ErrorModel>(
                                named::find_entry(t.enums, name)->0,
                            )
                        }
                    &&& forall|name: Seq<char>|
                        (forall|k: int|
                            0 <= k < entries.len() ==> yaml::as_str((#[trigger] entries[k]).0)
                                != Some(name)) ==> #[trigger] named::find_entry(t.enums, name)
                            is None
                },
                _ => false,
            },
        },
{
    if let Some(v) = yaml::under(m, "enums"@) {
        if let NodeModel::Mapping(entries) = v.node {
            lemma_enums(entries, 0, Seq::empty());
        }
    }
}

/// An entry of the mapping can be a type: a name, and a mapping that is the body
/// of a type.
pub open spec fn can_be_type(entry: (YamlModel, YamlModel)) -> bool {
    &&& yaml::as_str(entry.0) is Some
    &&& yaml::as_mapping(entry.1) is Some
    &&& schema::type_body(yaml::as_mapping(entry.1)->0) is Ok
}

/// The body of a type is read exactly where all its fields, types and
/// enumerations are.
pub proof fn law_which_types_are_read(m: Mapping)
    ensures
        (schema::type_body(m) is Ok) == {
            &&& yaml::under(m, "seq"@) matches Some(v) ==> v.node is Sequence && forall|k: int|
                0 <= k < v.node->Sequence_0.len() ==> schema::field(
                    #[trigger] v.node->Sequence_0[k],
                ) is Ok
            &&& yaml::under(m, "types"@) matches Some(v) ==> v.node is Mapping && forall|k: int|
                0 <= k < v.node->Mapping_0.len() ==> can_be_type(#[trigger] v.node->Mapping_0[k])
            &&& yaml::under(m, "enums"@) matches Some(v) ==> v.node is Mapping && forall|k: int|
                0 <= k < v.node->Mapping_0.len() ==> can_be_enumeration(
                    #[trigger] v.node->Mapping_0[k],
                )
        },
{
    if let Some(v) = yaml::under(m, "seq"@) {
        if let NodeModel::Sequence(items) = v.node {
            lemma_fields(items, 0, Seq::empty());
        }
    }
    if let Some(v) = yaml::under(m, "types"@) {
        if let NodeModel::Mapping(entries) = v.node {
            lemma_types(entries, 0, Seq::empty());
        }
    }
    if let Some(v) = yaml::under(m, "enums"@) {
        if let NodeModel::Mapping(entries) = v.node {
            lemma_enums(entries, 0, Seq::empty());
        }
    }
}

// ---------------------------------------------------------------------------
// Documents
// ---------------------------------------------------------------------------

/// The byte order that a document's `meta` gives.
pub open spec fn given_order(m: Mapping) -> Option<Seq<char>> {
    match yaml::under(m, "meta"@) {
        Some(meta) => match yaml::as_mapping(meta) {
            Some(inner) => string_at(inner, "endian"@),
            None => None,
        },
        None => None,
    }
}

/// A document is read where it is a mapping whose byte order is known and whose
/// body can be read. The byte order is big exactly where `meta` says `be`; it is
/// little where it says `le` or nothing.
pub proof fn law_documents_have_a_body_and_a_byte_order(y: YamlModel)
    ensures
        match schema::document(y) {
            Ok(s) => {
                &&& yaml::as_mapping(y) is Some
                &&& schema::type_body(yaml::as_mapping(y)->0) == Ok::<TypeModel, ErrorModel>(s.root)
                &&& given_order(yaml::as_mapping(y)->0) is None ==> s.endian == Endian::Little
                &&& given_order(yaml::as_mapping(y)->0) matches Some(o) ==> (o == "le"@ && s.endian
                    == Endian::Little) || (o == "be"@ && s.endian == Endian::Big)
            },
            Err(_) => {
                ||| yaml::as_mapping(y) is None
                ||| schema::type_body(yaml::as_mapping(y)->0) is Err
                ||| given_order(yaml::as_mapping(y)->0) matches Some(o) && o != "le"@ && o != "be"@
            },
        },
{
}

/// The text of a schema is read as YAML, and what is read makes the schema.
pub proof fn law_schemas_are_yaml_documents(source: Seq<char>)
    ensures
        match yaml::yaml_read(source) {
            Ok(y) => schema::schema_of(source) == schema::document(y),
            Err(_) => schema::schema_of(source) is Err,
        },
{
}

} // verus!
