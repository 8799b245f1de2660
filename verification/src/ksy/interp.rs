//! The interpreter: goes through a type definition and takes bytes to make
//! values of them, as `if`, `repeat`, `size`, `contents`, `enum`, nested types
//! and switch types say.
use vstd::prelude::*;
use vstd::slice::slice_to_vec;

use crate::error::Error;
use crate::ksy::eval::{eval, eval_bool, eval_usize, to_signed, values_equal, EvalScope};
use crate::ksy::expr::Expr;
use crate::ksy::read::{decode_string, find_nul, read_number, Cursor};
use crate::ksy::schema::{
    field_fault, Endian, FieldDef, PrimType, RepeatSpec, SwitchCase, TypeDef, TypeSpec,
};
use crate::render::hex_list_text;
use crate::result::{bytes_equal, Fields, Value};
use crate::text::{concat3, concat5};
#[allow(unused_imports)]
use crate::{
    error, error::ErrorModel, ksy::eval, ksy::eval::ScopeModel, ksy::expr::ExprModel, ksy::read,
    ksy::schema, ksy::schema::CaseModel, ksy::schema::FieldModel, ksy::schema::RepeatModel,
    ksy::schema::TypeModel, ksy::schema::TypeSpecModel, named, render, result, result::ValueModel,
};

verus! {

// ---------------------------------------------------------------------------
// Where decoding stands
// ---------------------------------------------------------------------------

/// The type that is being decoded, and how it was come to.
pub struct FrameModel {
    /// The types around the current one, from the root inwards; the current one
    /// is the last.
    pub chain: Seq<TypeModel>,
    pub endian: Endian,
    /// How many bytes were left where the current type starts.
    pub entry: nat,
    /// How many types, one inside the other, have started with as many bytes
    /// left, before the current one.
    pub idle: nat,
    /// How many types may start one inside the other before a byte is taken.
    pub limit: nat,
}

/// The fields of the current type.
pub open spec fn members(c: FrameModel) -> Seq<FieldModel> {
    c.chain.last().seq
}

/// How many fields of the current type there are from `i` on.
pub open spec fn to_come(c: FrameModel, i: int) -> nat {
    if i < members(c).len() {
        (members(c).len() - i) as nat
    } else {
        0
    }
}

/// How many types may still start before a byte is taken.
pub open spec fn slack(c: FrameModel) -> nat {
    if c.idle < c.limit {
        (c.limit - c.idle) as nat
    } else {
        0
    }
}

/// A decoded thing together with the number of bytes it takes, or the error
/// together with the number of bytes that are taken when it is met.
pub type Decoded<T> = Result<(T, nat), (ErrorModel, nat)>;

/// The same, taking `n` bytes more.
pub open spec fn further<T>(n: nat, r: Decoded<T>) -> Decoded<T> {
    match r {
        Ok((v, k)) => Ok((v, n + k)),
        Err((e, k)) => Err((e, n + k)),
    }
}

/// Named values.
pub type Entries = Seq<(Seq<char>, ValueModel)>;

/// What an expression in a type can refer to.
pub open spec fn scope(done: Entries) -> ScopeModel {
    ScopeModel { fields: done, current: None }
}

/// The type defines a type of the name.
pub open spec fn defines(t: TypeModel, name: Seq<char>) -> bool {
    named::find_entry(t.types, name) is Some
}

/// The innermost of the types `1..=k` of the chain that defines the name.
pub open spec fn outer_level(chain: Seq<TypeModel>, k: int, name: Seq<char>) -> Option<int>
    decreases k,
{
    if k <= 0 {
        None
    } else if defines(chain[k], name) {
        Some(k)
    } else {
        outer_level(chain, k - 1, name)
    }
}

/// The type of the chain whose definition of a name counts: the current one,
/// else the root, else the innermost of those between.
pub open spec fn level_of(chain: Seq<TypeModel>, name: Seq<char>) -> Option<int> {
    if defines(chain.last(), name) {
        Some(chain.len() - 1)
    } else if defines(chain[0], name) {
        Some(0)
    } else {
        outer_level(chain, chain.len() - 2, name)
    }
}

/// The error for a type inside itself with no byte taken in between, so that
/// decoding it would never end.
pub open spec fn inside_itself(name: Seq<char>) -> ErrorModel {
    ErrorModel::Protocol("type `"@ + name + "` contains itself without taking data"@)
}

/// Decoding as it starts on the type `name` of level `k`, with `size` bytes
/// left.
pub open spec fn entered(
    c: FrameModel,
    k: int,
    name: Seq<char>,
    endian: Endian,
    size: nat,
) -> Result<FrameModel, ErrorModel> {
    let idle = if size < c.entry {
        0
    } else {
        c.idle + 1
    };
    if idle >= c.limit {
        Err(inside_itself(name))
    } else {
        Ok(
            FrameModel {
                chain: c.chain.take(k + 1).push(named::find_entry(c.chain[k].types, name)->0),
                endian,
                entry: if size < c.entry {
                    size
                } else {
                    c.entry
                },
                idle,
                limit: c.limit,
            },
        )
    }
}

// ---------------------------------------------------------------------------
// Single values
// ---------------------------------------------------------------------------

/// How many bytes a field is to have, where that is given.
pub open spec fn given_size(f: FieldModel, done: Entries, available: nat) -> Result<
    Option<usize>,
    ErrorModel,
> {
    if f.size_eos {
        Ok(Some(available as usize))
    } else {
        match f.size {
            None => Ok(None),
            Some(e) => match eval::measured(e, scope(done)) {
                Ok(n) => Ok(Some(n)),
                Err(e) => Err(e),
            },
        }
    }
}

/// The bytes that must stand here.
pub open spec fn magic(expected: Seq<u8>, id: Seq<char>, b: Seq<u8>, p: nat) -> Decoded<
    ValueModel,
> {
    match read::taken(b, p, expected.len(), id) {
        Err(e) => Err((e, 0)),
        Ok(actual) => if actual == expected {
            Ok((ValueModel::Bytes(actual), expected.len()))
        } else {
            Err(
                (
                    ErrorModel::Protocol(
                        "field `"@ + id + "`: magic bytes mismatch: expected ["@
                            + render::hex_list(expected) + "], found ["@ + render::hex_list(actual)
                            + "]"@,
                    ),
                    expected.len(),
                ),
            )
        },
    }
}

/// Bytes without a type.
pub open spec fn raw(len: Option<usize>, id: Seq<char>, b: Seq<u8>, p: nat) -> Decoded<ValueModel> {
    match len {
        None => Err(
            (
                schema::field_error(
                    id,
                    "`: needs a `type`, or a `size`/`size-eos` for raw bytes"@,
                    Seq::empty(),
                ),
                0,
            ),
        ),
        Some(n) => match read::taken(b, p, n as nat, id) {
            Err(e) => Err((e, 0)),
            Ok(s) => Ok((ValueModel::Bytes(s), n as nat)),
        },
    }
}

/// The string of `n` bytes, where `extra` bytes more are taken after it.
pub open spec fn text_of(
    n: nat,
    extra: nat,
    encoding: Option<Seq<char>>,
    id: Seq<char>,
    b: Seq<u8>,
    p: nat,
) -> Decoded<ValueModel> {
    match read::taken(b, p, n, id) {
        Err(e) => Err((e, 0)),
        Ok(s) => match read::string_decoded(s, encoding, id) {
            Err(e) => Err((e, n + extra)),
            Ok(t) => Ok((ValueModel::Str(t), n + extra)),
        },
    }
}

/// A value of a primitive type. A string that ends with a zero byte takes that
/// byte too, but may also end with the data.
pub open spec fn primitive(
    prim: PrimType,
    len: Option<usize>,
    encoding: Option<Seq<char>>,
    endian: Endian,
    id: Seq<char>,
    b: Seq<u8>,
    p: nat,
) -> Decoded<ValueModel> {
    match prim {
        PrimType::Str => match len {
            None => Err(
                (
                    schema::field_error(
                        id,
                        "`: `str` type needs a `size` or `size-eos`"@,
                        Seq::empty(),
                    ),
                    0,
                ),
            ),
            Some(n) => text_of(n as nat, 0, encoding, id, b, p),
        },
        PrimType::StrZ => {
            let n = read::before_nul(b, p);
            text_of(
                n,
                if p + n < b.len() {
                    1
                } else {
                    0
                },
                encoding,
                id,
                b,
                p,
            )
        },
        _ => {
            let n = schema::byte_size(prim)->0 as nat;
            match read::taken(b, p, n, id) {
                Err(e) => Err((e, 0)),
                Ok(s) => Ok((read::numeric(prim, s, endian), n)),
            }
        },
    }
}

/// The symbols of the enumeration of a name: that of the current type, else that
/// of the root.
pub open spec fn symbols(chain: Seq<TypeModel>, name: Seq<char>) -> Option<Map<i64, Seq<char>>> {
    match named::find_entry(chain.last().enums, name) {
        Some(t) => Some(t),
        None => named::find_entry(chain[0].enums, name),
    }
}

/// A value, or in its place the symbol that the field's enumeration has for it.
pub open spec fn symbolized(v: ValueModel, f: FieldModel, chain: Seq<TypeModel>) -> ValueModel {
    let n = match v {
        ValueModel::Integer(n) => Some(n),
        ValueModel::UnsignedInteger(n) => Some(eval::signed(n)),
        _ => None,
    };
    if f.enum_name is Some && n is Some && symbols(chain, f.enum_name->0) is Some && symbols(
        chain,
        f.enum_name->0,
    )->0.contains_key(n->0) {
        ValueModel::Str(symbols(chain, f.enum_name->0)->0[n->0])
    } else {
        v
    }
}

/// Case `k` is one that the value `on` falls under.
pub open spec fn falls_under(
    cases: Seq<(CaseModel, TypeSpecModel)>,
    k: int,
    on: ValueModel,
    done: Entries,
) -> bool {
    match cases[k].0 {
        CaseModel::Default => true,
        CaseModel::Value(e) => match eval::evaluated(e, scope(done)) {
            Ok(v) => eval::alike(v, on),
            Err(_) => false,
        },
    }
}

/// The first case from `i` on that the value `on` falls under. A case whose
/// expression has no value is passed over.
pub open spec fn case_from(
    cases: Seq<(CaseModel, TypeSpecModel)>,
    i: int,
    on: ValueModel,
    done: Entries,
) -> Option<int>
    decreases cases.len() - i,
{
    if i < 0 || i >= cases.len() {
        None
    } else {
        if falls_under(cases, i, on, done) {
            Some(i)
        } else {
            case_from(cases, i + 1, on, done)
        }
    }
}

pub proof fn lemma_case_from(
    cases: Seq<(CaseModel, TypeSpecModel)>,
    i: int,
    on: ValueModel,
    done: Entries,
)
    ensures
        match case_from(cases, i, on, done) {
            Some(k) => 0 <= k < cases.len(),
            None => true,
        },
    decreases cases.len() - i,
{
    if 0 <= i < cases.len() {
        lemma_case_from(cases, i + 1, on, done);
    }
}

/// A type once the cases of switches are decided.
pub enum ChosenModel {
    Primitive(PrimType),
    Named(Seq<char>),
}

/// The type that a field has, given the fields before it.
pub open spec fn chosen(t: TypeSpecModel, id: Seq<char>, done: Entries) -> Result<
    ChosenModel,
    ErrorModel,
>
    decreases t,
{
    match t {
        TypeSpecModel::Primitive(prim) => Ok(ChosenModel::Primitive(prim)),
        TypeSpecModel::Named(name) => Ok(ChosenModel::Named(name)),
        TypeSpecModel::Switch { on, cases } => match eval::evaluated(on, scope(done)) {
            Err(e) => Err(e),
            Ok(v) => match case_from(cases, 0, v, done) {
                None => Err(
                    ErrorModel::ProtocolValue(
                        "field `"@ + id + "`: no switch case matches value "@,
                        v,
                    ),
                ),
                Some(k) => {
                    proof {
                        lemma_case_from(cases, 0, v, done);
                        assert(decreases_to!(t => cases[k].1));
                    }
                    chosen(cases[k].1, id, done)
                },
            },
        },
    }
}

// ---------------------------------------------------------------------------
// Types
// ---------------------------------------------------------------------------

/// The struct of the named type that stands here for the field `id`.
pub open spec fn nested(
    name: Seq<char>,
    len: Option<usize>,
    c: FrameModel,
    endian: Endian,
    id: Seq<char>,
    b: Seq<u8>,
    p: nat,
) -> Decoded<ValueModel>
    decreases c.entry, slack(c), 0nat, 0nat,
{
    match level_of(c.chain, name) {
        None => Err((ErrorModel::Protocol("unknown type reference `"@ + name + "`"@), 0)),
        Some(k) => match len {
            Some(n) => match read::taken(b, p, n as nat, id) {
                Err(e) => Err((e, 0)),
                Ok(s) => match entered(c, k, name, endian, n as nat) {
                    Err(e) => Err((e, n as nat)),
                    Ok(inner) => match fields_from(inner, 0, Seq::empty(), s, 0) {
                        Err((e, _)) => Err((e, n as nat)),
                        Ok((fields, _)) => Ok((ValueModel::Struct(fields), n as nat)),
                    },
                },
            },
            None => match entered(c, k, name, endian, read::left(b, p)) {
                Err(e) => Err((e, 0)),
                Ok(inner) => match fields_from(inner, 0, Seq::empty(), b, p) {
                    Err(e) => Err(e),
                    Ok((fields, n)) => Ok((ValueModel::Struct(fields), n)),
                },
            },
        },
    }
}

/// A value of the type, or raw bytes where there is none, for the field `id`.
pub open spec fn typed(
    t: Option<TypeSpecModel>,
    len: Option<usize>,
    encoding: Option<Seq<char>>,
    c: FrameModel,
    endian: Endian,
    id: Seq<char>,
    done: Entries,
    b: Seq<u8>,
    p: nat,
) -> Decoded<ValueModel>
    decreases c.entry, slack(c), 0nat, 1nat,
{
    match t {
        None => raw(len, id, b, p),
        Some(t) => match chosen(t, id, done) {
            Err(e) => Err((e, 0)),
            Ok(ChosenModel::Primitive(prim)) => primitive(prim, len, encoding, endian, id, b, p),
            Ok(ChosenModel::Named(name)) => nested(name, len, c, endian, id, b, p),
        },
    }
}

/// One occurrence of field `i`.
pub open spec fn single(c: FrameModel, i: int, done: Entries, b: Seq<u8>, p: nat) -> Decoded<
    ValueModel,
>
    decreases c.entry, slack(c), 5 * to_come(c, i) + 1, 0nat,
{
    let f = members(c)[i];
    match f.contents {
        Some(expected) => magic(expected, f.id, b, p),
        None => match given_size(f, done, read::left(b, p)) {
            Err(e) => Err((e, 0)),
            Ok(len) => {
                let endian = match f.endian_override {
                    Some(endian) => endian,
                    None => c.endian,
                };
                match typed(f.type_spec, len, f.encoding, c, endian, f.id, done, b, p) {
                    Err(e) => Err(e),
                    Ok((v, n)) => Ok((symbolized(v, f, c.chain), n)),
                }
            },
        },
    }
}

/// `items`, and after them `count` occurrences of field `i`.
pub open spec fn repeated(
    c: FrameModel,
    i: int,
    done: Entries,
    count: nat,
    items: Seq<ValueModel>,
    b: Seq<u8>,
    p: nat,
) -> Decoded<ValueModel>
    decreases c.entry, slack(c), 5 * to_come(c, i) + 2, count,
{
    if count == 0 {
        Ok((ValueModel::Array(items), 0))
    } else {
        match single(c, i, done, b, p) {
            Err(e) => Err(e),
            Ok((v, n)) => further(
                n,
                repeated(c, i, done, (count - 1) as nat, items.push(v), b, p + n),
            ),
        }
    }
}

/// The error for an item that takes no data, so that repeating it would never
/// end.
pub open spec fn endless(id: Seq<char>) -> ErrorModel {
    schema::field_error(id, "`: repeated item takes no data"@, Seq::empty())
}

/// `items`, and after them occurrences of field `i` up to the end of the data.
pub open spec fn to_end(
    c: FrameModel,
    i: int,
    done: Entries,
    items: Seq<ValueModel>,
    b: Seq<u8>,
    p: nat,
) -> Decoded<ValueModel>
    decreases c.entry, slack(c), 5 * to_come(c, i) + 2, read::left(b, p),
{
    if p >= b.len() {
        Ok((ValueModel::Array(items), 0))
    } else {
        match single(c, i, done, b, p) {
            Err(e) => Err(e),
            Ok((v, n)) => if n == 0 {
                Err((endless(members(c)[i].id), 0))
            } else {
                further(n, to_end(c, i, done, items.push(v), b, p + n))
            },
        }
    }
}

/// `items`, and after them occurrences of field `i` up to the first that fulfils
/// the condition.
pub open spec fn until(
    c: FrameModel,
    i: int,
    done: Entries,
    cond: ExprModel,
    items: Seq<ValueModel>,
    b: Seq<u8>,
    p: nat,
) -> Decoded<ValueModel>
    decreases c.entry, slack(c), 5 * to_come(c, i) + 2, read::left(b, p),
{
    match single(c, i, done, b, p) {
        Err(e) => Err(e),
        Ok((v, n)) => match eval::holds(
            cond,
            ScopeModel { fields: done, current: Some(v) },
        ) {
            Err(e) => Err((e, n)),
            Ok(true) => Ok((ValueModel::Array(items.push(v)), n)),
            Ok(false) => if p + n >= b.len() {
                Err(
                    (
                        schema::field_error(
                            members(c)[i].id,
                            "`: `repeat-until` condition never became true before end of data"@,
                            Seq::empty(),
                        ),
                        n,
                    ),
                )
            } else if n == 0 {
                Err((endless(members(c)[i].id), 0))
            } else {
                further(n, until(c, i, done, cond, items.push(v), b, p + n))
            },
        },
    }
}

/// Field `i`, with its repetitions.
pub open spec fn occurrences(c: FrameModel, i: int, done: Entries, b: Seq<u8>, p: nat) -> Decoded<
    ValueModel,
>
    decreases c.entry, slack(c), 5 * to_come(c, i) + 3, 0nat,
{
    match members(c)[i].repeat {
        None => single(c, i, done, b, p),
        Some(RepeatModel::Expr(e)) => match eval::measured(e, scope(done)) {
            Err(e) => Err((e, 0)),
            Ok(count) => repeated(c, i, done, count as nat, Seq::empty(), b, p),
        },
        Some(RepeatModel::Eos) => to_end(c, i, done, Seq::empty(), b, p),
        Some(RepeatModel::Until(e)) => until(c, i, done, e, Seq::empty(), b, p),
    }
}

/// Field `i` is left out.
pub open spec fn skipped(c: FrameModel, i: int, done: Entries) -> Result<bool, ErrorModel> {
    match members(c)[i].if_cond {
        None => Ok(false),
        Some(e) => match eval::holds(e, scope(done)) {
            Err(e) => Err(e),
            Ok(b) => Ok(!b),
        },
    }
}

/// `done`, and with it the fields from `i` on, in the order of their
/// declaration.
pub open spec fn fields_from(c: FrameModel, i: int, done: Entries, b: Seq<u8>, p: nat) -> Decoded<
    Entries,
>
    decreases c.entry, slack(c), 5 * to_come(c, i) + 4, 0nat,
{
    if i < 0 || i >= members(c).len() {
        Ok((done, 0))
    } else {
        match skipped(c, i, done) {
            Err(e) => Err((e, 0)),
            Ok(true) => fields_from(c, i + 1, done, b, p),
            Ok(false) => match occurrences(c, i, done, b, p) {
                Err(e) => Err(e),
                Ok((v, n)) => further(
                    n,
                    fields_from(c, i + 1, named::put_entry(done, members(c)[i].id, v), b, p + n),
                ),
            },
        }
    }
}

/// How many types a definition has, with itself and those inside.
pub open spec fn type_count(t: TypeModel) -> nat
    decreases t, 0int,
{
    1 + inner_count(t.types, t.types.len() as int)
}

/// How many types the first `n` definitions have.
pub open spec fn inner_count(types: Seq<(Seq<char>, TypeModel)>, n: int) -> nat
    decreases types, n,
{
    if n <= 0 || n > types.len() {
        0
    } else {
        inner_count(types, n - 1) + type_count(types[n - 1].1)
    }
}

/// How many types may start one inside the other before a byte is taken: among
/// more than two for each definition, one for each byte order, some type would
/// stand inside itself.
pub open spec fn nesting_limit(root: TypeModel) -> nat {
    if 2 * type_count(root) <= usize::MAX {
        2 * type_count(root)
    } else {
        usize::MAX as nat
    }
}

/// Decoding as it starts on the root type.
pub open spec fn outermost(root: TypeModel, endian: Endian, size: nat, limit: nat) -> FrameModel {
    FrameModel { chain: seq![root], endian, entry: size, idle: 0, limit }
}

/// The fields that bytes hold according to a root type, where `limit` types may
/// start one inside the other before a byte is taken.
pub open spec fn decoded_within(root: TypeModel, endian: Endian, b: Seq<u8>, limit: nat) -> Result<
    Entries,
    ErrorModel,
> {
    match fields_from(outermost(root, endian, b.len(), limit), 0, Seq::empty(), b, 0) {
        Ok((fields, _)) => Ok(fields),
        Err((e, _)) => Err(e),
    }
}

/// The fields that bytes hold according to a root type.
pub open spec fn decoded(root: TypeModel, endian: Endian, b: Seq<u8>) -> Result<
    Entries,
    ErrorModel,
> {
    decoded_within(root, endian, b, nesting_limit(root))
}

// ---------------------------------------------------------------------------
// The interpreter
// ---------------------------------------------------------------------------

/// The type that is being decoded, and how it was come to.
pub struct Frame<'a> {
    chain: Vec<&'a TypeDef>,
    endian: Endian,
    entry: usize,
    idle: usize,
    limit: usize,
}

spec fn chain_models(chain: Seq<&TypeDef>) -> Seq<TypeModel> {
    Seq::new(chain.len(), |i: int| chain[i]@)
}

impl<'a> View for Frame<'a> {
    type V = FrameModel;

    closed spec fn view(&self) -> FrameModel {
        FrameModel {
            chain: chain_models(self.chain@),
            endian: self.endian,
            entry: self.entry as nat,
            idle: self.idle as nat,
            limit: self.limit as nat,
        }
    }
}

/// Decoding has come to what the model says, or met the same error at the same
/// place.
pub open spec fn agrees<T: View>(
    r: Result<T, Error>,
    m: Decoded<T::V>,
    before: Cursor,
    after: Cursor,
) -> bool {
    &&& after.bytes == before.bytes
    &&& after.wf()
    &&& match (r, m) {
        (Ok(v), Ok((x, n))) => v@ == x && after.pos == before.pos + n,
        (Err(e), Err((x, n))) => e@ == x && after.pos == before.pos + n,
        _ => false,
    }
}

impl<'a> Frame<'a> {
    pub open spec fn wf(self) -> bool {
        self@.chain.len() > 0
    }

    /// Decoding as it starts on the root type, with `size` bytes left.
    pub fn outermost(root: &'a TypeDef, endian: Endian, size: usize) -> (r: Frame<'a>)
        ensures
            r@ == outermost(root@, endian, size as nat, nesting_limit(root@)),
    {
        let types: usize = count_types(root);
        let mut chain: Vec<&'a TypeDef> = Vec::new();
        chain.push(root);
        let r = Frame { chain, endian, entry: size, idle: 0, limit: types.saturating_add(types) };
        assert(r@.chain =~= seq![root@]);
        r
    }

    fn current(&self) -> (r: &'a TypeDef)
        requires
            self.wf(),
        ensures
            r@ == self@.chain.last(),
            schema::field_models(r.seq@) == members(self@),
    {
        let r = self.chain[self.chain.len() - 1];
        proof {
            schema::lemma_type_model(*r);
        }
        r
    }

    fn field(&self, i: usize) -> (r: &'a FieldDef)
        requires
            self.wf(),
            i < members(self@).len(),
        ensures
            r@ == members(self@)[i as int],
    {
        &self.current().seq[i]
    }

    /// The level of the chain whose definition of a name counts, and the
    /// definition.
    fn resolve(&self, name: &str) -> (r: Option<(usize, &'a TypeDef)>)
        requires
            self.wf(),
        ensures
            match (r, level_of(self@.chain, name@)) {
                (Some((k, t)), Some(m)) => k == m && k < self.chain@.len() && named::find_entry(
                    self@.chain[m].types,
                    name@,
                ) == Some(t@),
                (None, None) => true,
                _ => false,
            },
    {
        let last: usize = self.chain.len() - 1;
        proof {
            schema::lemma_type_model(*self.chain@[last as int]);
            schema::lemma_type_model(*self.chain@[0]);
        }
        if let Some(t) = self.chain[last].types.get(name) {
            return Some((last, t));
        }
        if let Some(t) = self.chain[0].types.get(name) {
            return Some((0, t));
        }
        if last == 0 {
            return None;
        }
        let mut k: usize = last - 1;
        while k > 0
            invariant
                k < self.chain@.len(),
                level_of(self@.chain, name@) == outer_level(self@.chain, k as int, name@),
            decreases k,
        {
            proof {
                schema::lemma_type_model(*self.chain@[k as int]);
            }
            if let Some(t) = self.chain[k].types.get(name) {
                return Some((k, t));
            }
            k = k - 1;
        }
        None
    }

    /// The frame of the type `def` that level `k` defines under `name`.
    fn enter(&self, k: usize, def: &'a TypeDef, name: &str, endian: Endian, size: usize) -> (r:
        Result<Frame<'a>, Error>)
        requires
            k < self.chain@.len(),
            named::find_entry(self@.chain[k as int].types, name@) == Some(def@),
        ensures
            error::outcome(r) == entered(self@, k as int, name@, endian, size as nat),
            r matches Ok(f) ==> f.wf() && f.limit == self.limit,
    {
        let shrunk = size < self.entry;
        if !shrunk && (self.idle >= self.limit || self.limit - self.idle <= 1) || self.limit == 0 {
            return Err(
                Error::Protocol(concat3("type `", name, "` contains itself without taking data")),
            );
        }
        let depth: usize = self.chain.len();
        let mut chain: Vec<&'a TypeDef> = Vec::new();
        let mut i: usize = 0;
        while i <= k
            invariant
                i <= k + 1,
                k < depth == self.chain@.len(),
                chain@ =~= self.chain@.take(i as int),
            decreases k + 1 - i,
        {
            chain.push(self.chain[i]);
            i = i + 1;
        }
        chain.push(def);
        assert(chain_models(chain@) =~= self@.chain.take(k + 1).push(def@));
        Ok(
            Frame {
                chain,
                endian,
                entry: if shrunk {
                    size
                } else {
                    self.entry
                },
                idle: if shrunk {
                    0
                } else {
                    self.idle + 1
                },
                limit: self.limit,
            },
        )
    }
}

/// How many bytes a field is to have, where that is given.
fn resolve_size(field: &FieldDef, cursor: &Cursor, fields: &Fields) -> (r: Result<
    Option<usize>,
    Error,
>)
    requires
        cursor.wf(),
    ensures
        match (r, given_size(field@, fields@, read::left(cursor.bytes@, cursor.pos as nat))) {
            (Ok(a), Ok(b)) => a == b,
            (Err(e), Err(m)) => e@ == m,
            _ => false,
        },
{
    if field.size_eos {
        return Ok(Some(cursor.remaining()));
    }
    match &field.size {
        Some(e) => {
            let scope = EvalScope { fields, current: None };
            match eval_usize(e, &scope) {
                Ok(n) => Ok(Some(n)),
                Err(e) => Err(e),
            }
        },
        None => Ok(None),
    }
}

/// Takes the bytes that must stand here.
fn read_magic(expected: &Vec<u8>, id: &str, cursor: &mut Cursor) -> (r: Result<Value, Error>)
    requires
        old(cursor).wf(),
    ensures
        agrees(
            r,
            magic(expected@, id@, old(cursor).bytes@, old(cursor).pos as nat),
            *old(cursor),
            *final(cursor),
        ),
{
    let actual = match cursor.read(expected.len(), id) {
        Ok(s) => s,
        Err(e) => return Err(e),
    };
    if !bytes_equal(actual, expected.as_slice()) {
        let mut message = concat5(
            "field `",
            id,
            "`: magic bytes mismatch: expected [",
            hex_list_text(expected.as_slice()).as_str(),
            "], found [",
        );
        message.append(hex_list_text(actual).as_str());
        message.append("]");
        return Err(Error::Protocol(message));
    }
    let v = Value::Bytes(slice_to_vec(actual));
    proof {
        result::lemma_value_model(v);
    }
    Ok(v)
}

/// Takes bytes without a type.
fn read_raw(len: Option<usize>, id: &str, cursor: &mut Cursor) -> (r: Result<Value, Error>)
    requires
        old(cursor).wf(),
    ensures
        agrees(
            r,
            raw(len, id@, old(cursor).bytes@, old(cursor).pos as nat),
            *old(cursor),
            *final(cursor),
        ),
{
    let n: usize = match len {
        Some(n) => n,
        None => return Err(
            field_fault(id, "`: needs a `type`, or a `size`/`size-eos` for raw bytes"),
        ),
    };
    match cursor.read(n, id) {
        Ok(s) => {
            let v = Value::Bytes(slice_to_vec(s));
            proof {
                result::lemma_value_model(v);
            }
            Ok(v)
        },
        Err(e) => Err(e),
    }
}

/// Takes a string of `n` bytes.
fn read_text(n: usize, encoding: &Option<String>, id: &str, cursor: &mut Cursor) -> (r: Result<
    Value,
    Error,
>)
    requires
        old(cursor).wf(),
    ensures
        agrees(
            r,
            text_of(
                n as nat,
                0,
                error::seen(*encoding),
                id@,
                old(cursor).bytes@,
                old(cursor).pos as nat,
            ),
            *old(cursor),
            *final(cursor),
        ),
{
    let bytes = match cursor.read(n, id) {
        Ok(s) => s,
        Err(e) => return Err(e),
    };
    match decode_string(bytes, encoding, id) {
        Ok(s) => {
            let v = Value::Str(s);
            proof {
                result::lemma_value_model(v);
            }
            Ok(v)
        },
        Err(e) => Err(e),
    }
}

/// Takes a value of a primitive type.
fn read_primitive(
    prim: PrimType,
    len: Option<usize>,
    encoding: &Option<String>,
    endian: Endian,
    id: &str,
    cursor: &mut Cursor,
) -> (r: Result<Value, Error>)
    requires
        old(cursor).wf(),
    ensures
        agrees(
            r,
            primitive(
                prim,
                len,
                error::seen(*encoding),
                endian,
                id@,
                old(cursor).bytes@,
                old(cursor).pos as nat,
            ),
            *old(cursor),
            *final(cursor),
        ),
{
    match prim {
        PrimType::Str => match len {
            Some(n) => read_text(n, encoding, id, cursor),
            None => Err(field_fault(id, "`: `str` type needs a `size` or `size-eos`")),
        },
        PrimType::StrZ => {
            let size: usize = cursor.bytes.len();
            let end: usize = find_nul(cursor.bytes, cursor.pos);
            let r = read_text(end - cursor.pos, encoding, id, cursor);
            if end < size {
                cursor.pos = cursor.pos + 1;
            }
            r
        },
        _ => {
            let n: usize = match prim.fixed_size() {
                Some(n) => n,
                None => 0,
            };
            match cursor.read(n, id) {
                Ok(s) => Ok(read_number(prim, s, endian)),
                Err(e) => Err(e),
            }
        },
    }
}

/// The symbol that the field's enumeration has for the value, else the value.
fn apply_enum(value: Value, field: &FieldDef, frame: &Frame) -> (r: Value)
    requires
        frame.wf(),
    ensures
        r@ == symbolized(value@, field@, frame@.chain),
{
    broadcast use vstd::std_specs::hash::group_hash_axioms;

    let current = frame.current();
    let root = frame.chain[0];
    proof {
        result::lemma_value_model(value);
        schema::lemma_type_model(*current);
        schema::lemma_type_model(*root);
        assert(frame@.chain[0] == root@);
    }
    let name = match &field.enum_name {
        Some(name) => name.as_str(),
        None => return value,
    };
    let table = match current.enums.get(name) {
        Some(table) => table,
        None => match root.enums.get(name) {
            Some(table) => table,
            None => return value,
        },
    };
    let numeric: i64 = match &value {
        Value::Integer(n) => *n,
        Value::UnsignedInteger(n) => to_signed(*n),
        _ => return value,
    };
    match table.get(&numeric) {
        Some(symbol) => {
            let r = Value::Str(symbol.clone());
            proof {
                result::lemma_value_model(r);
            }
            r
        },
        None => value,
    }
}

/// A type once the cases of switches are decided.
pub enum Chosen<'a> {
    Primitive(PrimType),
    Named(&'a String),
}

impl<'a> View for Chosen<'a> {
    type V = ChosenModel;

    open spec fn view(&self) -> ChosenModel {
        match *self {
            Chosen::Primitive(prim) => ChosenModel::Primitive(prim),
            Chosen::Named(name) => ChosenModel::Named(name@),
        }
    }
}

/// The type that a field has, given the fields before it.
pub fn choose_type<'a>(t: &'a TypeSpec, id: &str, fields: &Fields) -> (r: Result<Chosen<'a>, Error>)
    ensures
        error::outcome(r) == chosen(t@, id@, fields@),
    decreases t@,
{
    proof {
        schema::lemma_type_spec_model(*t);
    }
    match t {
        TypeSpec::Primitive(prim) => Ok(Chosen::Primitive(*prim)),
        TypeSpec::Named(name) => Ok(Chosen::Named(name)),
        TypeSpec::Switch { on, cases } => {
            let scope = EvalScope { fields, current: None };
            let value = match eval(on, &scope) {
                Ok(v) => v,
                Err(e) => return Err(e),
            };
            let ghost m = schema::case_models(cases@);
            let mut i: usize = 0;
            while i < cases.len()
                invariant
                    t@ == (TypeSpecModel::Switch { on: on@, cases: m }),
                    m == schema::case_models(cases@),
                    scope@ == self::scope(fields@),
                    eval::evaluated(on@, self::scope(fields@)) == Ok::<ValueModel, ErrorModel>(
                        value@,
                    ),
                    i <= cases@.len(),
                    case_from(m, 0, value@, fields@) == case_from(m, i as int, value@, fields@),
                decreases cases@.len() - i,
            {
                assert(m[i as int] == (cases@[i as int].0@, cases@[i as int].1@));
                let hit = match &cases[i].0 {
                    SwitchCase::Default => true,
                    SwitchCase::Value(e) => match eval(e, &scope) {
                        Ok(v) => values_equal(&v, &value),
                        Err(_) => false,
                    },
                };
                if hit {
                    assert(decreases_to!(t@ => m[i as int].1));
                    return choose_type(&cases[i].1, id, fields);
                }
                i = i + 1;
            }
            Err(
                Error::ProtocolValue(
                    concat3("field `", id, "`: no switch case matches value "),
                    value,
                ),
            )
        },
    }
}

/// Decodes the struct of a named type for the field `id`.
fn decode_nested(
    name: &str,
    len: Option<usize>,
    frame: &Frame,
    endian: Endian,
    id: &str,
    cursor: &mut Cursor,
) -> (r: Result<Value, Error>)
    requires
        frame.wf(),
        old(cursor).wf(),
    ensures
        agrees(
            r,
            nested(
                name@,
                len,
                frame@,
                endian,
                id@,
                old(cursor).bytes@,
                old(cursor).pos as nat,
            ),
            *old(cursor),
            *final(cursor),
        ),
    decreases frame@.entry, slack(frame@), 0nat, 0nat,
{
    let (k, def) = match frame.resolve(name) {
        Some(found) => found,
        None => return Err(Error::Protocol(concat3("unknown type reference `", name, "`"))),
    };
    let fields = match len {
        Some(n) => {
            let slice = match cursor.read(n, id) {
                Ok(s) => s,
                Err(e) => return Err(e),
            };
            let inner = match frame.enter(k, def, name, endian, n) {
                Ok(inner) => inner,
                Err(e) => return Err(e),
            };
            let mut sub = Cursor::new(slice);
            match decode_type(&inner, &mut sub) {
                Ok(fields) => fields,
                Err(e) => return Err(e),
            }
        },
        None => {
            let inner = match frame.enter(k, def, name, endian, cursor.remaining()) {
                Ok(inner) => inner,
                Err(e) => return Err(e),
            };
            match decode_type(&inner, cursor) {
                Ok(fields) => fields,
                Err(e) => return Err(e),
            }
        },
    };
    let v = Value::Struct(fields);
    proof {
        result::lemma_value_model(v);
    }
    Ok(v)
}

/// Decodes a value of a type for the field `id`, or takes raw bytes where there
/// is no type.
pub fn decode_by_type_spec(
    type_spec: Option<&TypeSpec>,
    len: Option<usize>,
    encoding: &Option<String>,
    frame: &Frame,
    endian: Endian,
    id: &str,
    fields: &Fields,
    cursor: &mut Cursor,
) -> (r: Result<Value, Error>)
    requires
        frame.wf(),
        old(cursor).wf(),
    ensures
        agrees(
            r,
            typed(
                error::seen(type_spec),
                len,
                error::seen(*encoding),
                frame@,
                endian,
                id@,
                fields@,
                old(cursor).bytes@,
                old(cursor).pos as nat,
            ),
            *old(cursor),
            *final(cursor),
        ),
    decreases frame@.entry, slack(frame@), 0nat, 1nat,
{
    match type_spec {
        None => read_raw(len, id, cursor),
        Some(t) => match choose_type(t, id, fields) {
            Err(e) => Err(e),
            Ok(Chosen::Primitive(prim)) => read_primitive(prim, len, encoding, endian, id, cursor),
            Ok(Chosen::Named(name)) => decode_nested(
                name.as_str(),
                len,
                frame,
                endian,
                id,
                cursor,
            ),
        },
    }
}

/// Decodes one occurrence of field `i`.
fn decode_field_value(frame: &Frame, i: usize, fields: &Fields, cursor: &mut Cursor) -> (r: Result<
    Value,
    Error,
>)
    requires
        frame.wf(),
        i < members(frame@).len(),
        old(cursor).wf(),
    ensures
        agrees(
            r,
            single(frame@, i as int, fields@, old(cursor).bytes@, old(cursor).pos as nat),
            *old(cursor),
            *final(cursor),
        ),
    decreases frame@.entry, slack(frame@), 5 * to_come(frame@, i as int) + 1, 0nat,
{
    let field = frame.field(i);
    let id = field.id.as_str();
    if let Some(expected) = &field.contents {
        return read_magic(expected, id, cursor);
    }
    let len = match resolve_size(field, cursor, fields) {
        Ok(len) => len,
        Err(e) => return Err(e),
    };
    let endian = match field.endian_override {
        Some(endian) => endian,
        None => frame.endian,
    };
    let value = decode_by_type_spec(
        field.type_spec.as_ref(),
        len,
        &field.encoding,
        frame,
        endian,
        id,
        fields,
        cursor,
    );
    match value {
        Ok(v) => Ok(apply_enum(v, field, frame)),
        Err(e) => Err(e),
    }
}

fn array(items: Vec<Value>) -> (r: Value)
    ensures
        r@ == ValueModel::Array(result::value_models(items@)),
{
    let r = Value::Array(items);
    proof {
        result::lemma_value_model(r);
    }
    r
}

/// Decodes `count` occurrences of field `i`.
fn decode_count(
    frame: &Frame,
    i: usize,
    fields: &Fields,
    count: usize,
    cursor: &mut Cursor,
) -> (r: Result<Value, Error>)
    requires
        frame.wf(),
        i < members(frame@).len(),
        old(cursor).wf(),
    ensures
        agrees(
            r,
            repeated(
                frame@,
                i as int,
                fields@,
                count as nat,
                Seq::empty(),
                old(cursor).bytes@,
                old(cursor).pos as nat,
            ),
            *old(cursor),
            *final(cursor),
        ),
    decreases frame@.entry, slack(frame@), 5 * to_come(frame@, i as int) + 2, 0nat,
{
    let ghost b = cursor.bytes@;
    let ghost start = cursor.pos as nat;
    let ghost whole = repeated(frame@, i as int, fields@, count as nat, Seq::empty(), b, start);
    let mut items: Vec<Value> = Vec::new();
    let mut k: usize = count;
    assert(result::value_models(items@) =~= Seq::<ValueModel>::empty());
    while k > 0
        invariant
            frame.wf(),
            i < members(frame@).len(),
            cursor.wf(),
            cursor.bytes == old(cursor).bytes,
            b == cursor.bytes@,
            start == old(cursor).pos <= cursor.pos,
            whole == repeated(frame@, i as int, fields@, count as nat, Seq::empty(), b, start),
            whole == further(
                (cursor.pos - start) as nat,
                repeated(
                    frame@,
                    i as int,
                    fields@,
                    k as nat,
                    result::value_models(items@),
                    b,
                    cursor.pos as nat,
                ),
            ),
        decreases k,
    {
        match decode_field_value(frame, i, fields, cursor) {
            Ok(v) => {
                let ghost before = result::value_models(items@);
                let ghost added = v@;
                items.push(v);
                assert(result::value_models(items@) =~= before.push(added));
            },
            Err(e) => {
                return Err(e);
            },
        }
        k = k - 1;
    }
    Ok(array(items))
}

/// Decodes occurrences of field `i` up to the end of the data.
fn decode_to_end(frame: &Frame, i: usize, fields: &Fields, cursor: &mut Cursor) -> (r: Result<
    Value,
    Error,
>)
    requires
        frame.wf(),
        i < members(frame@).len(),
        old(cursor).wf(),
    ensures
        agrees(
            r,
            to_end(
                frame@,
                i as int,
                fields@,
                Seq::empty(),
                old(cursor).bytes@,
                old(cursor).pos as nat,
            ),
            *old(cursor),
            *final(cursor),
        ),
    decreases frame@.entry, slack(frame@), 5 * to_come(frame@, i as int) + 2, 0nat,
{
    let ghost b = cursor.bytes@;
    let ghost start = cursor.pos as nat;
    let ghost whole = to_end(frame@, i as int, fields@, Seq::empty(), b, start);
    let mut items: Vec<Value> = Vec::new();
    assert(result::value_models(items@) =~= Seq::<ValueModel>::empty());
    while cursor.remaining() > 0
        invariant
            frame.wf(),
            i < members(frame@).len(),
            cursor.wf(),
            cursor.bytes == old(cursor).bytes,
            b == cursor.bytes@,
            start == old(cursor).pos <= cursor.pos,
            whole == to_end(frame@, i as int, fields@, Seq::empty(), b, start),
            whole == further(
                (cursor.pos - start) as nat,
                to_end(
                    frame@,
                    i as int,
                    fields@,
                    result::value_models(items@),
                    b,
                    cursor.pos as nat,
                ),
            ),
        decreases read::left(b, cursor.pos as nat),
    {
        let here: usize = cursor.pos;
        match decode_field_value(frame, i, fields, cursor) {
            Ok(v) => {
                if cursor.pos == here {
                    return Err(
                        field_fault(frame.field(i).id.as_str(), "`: repeated item takes no data"),
                    );
                }
                let ghost before = result::value_models(items@);
                let ghost added = v@;
                items.push(v);
                assert(result::value_models(items@) =~= before.push(added));
            },
            Err(e) => {
                return Err(e);
            },
        }
    }
    Ok(array(items))
}

/// Decodes occurrences of field `i` up to the first that fulfils the condition.
fn decode_until(
    frame: &Frame,
    i: usize,
    fields: &Fields,
    cond: &Expr,
    cursor: &mut Cursor,
) -> (r: Result<Value, Error>)
    requires
        frame.wf(),
        i < members(frame@).len(),
        old(cursor).wf(),
    ensures
        agrees(
            r,
            until(
                frame@,
                i as int,
                fields@,
                cond@,
                Seq::empty(),
                old(cursor).bytes@,
                old(cursor).pos as nat,
            ),
            *old(cursor),
            *final(cursor),
        ),
    decreases frame@.entry, slack(frame@), 5 * to_come(frame@, i as int) + 2, 0nat,
{
    let ghost b = cursor.bytes@;
    let ghost start = cursor.pos as nat;
    let ghost whole = until(frame@, i as int, fields@, cond@, Seq::empty(), b, start);
    let mut items: Vec<Value> = Vec::new();
    assert(result::value_models(items@) =~= Seq::<ValueModel>::empty());
    loop
        invariant
            frame.wf(),
            i < members(frame@).len(),
            cursor.wf(),
            cursor.bytes == old(cursor).bytes,
            b == cursor.bytes@,
            start == old(cursor).pos <= cursor.pos,
            whole == until(frame@, i as int, fields@, cond@, Seq::empty(), b, start),
            whole == further(
                (cursor.pos - start) as nat,
                until(
                    frame@,
                    i as int,
                    fields@,
                    cond@,
                    result::value_models(items@),
                    b,
                    cursor.pos as nat,
                ),
            ),
        decreases read::left(b, cursor.pos as nat),
    {
        let here: usize = cursor.pos;
        let item = match decode_field_value(frame, i, fields, cursor) {
            Ok(v) => v,
            Err(e) => return Err(e),
        };
        let stop = {
            let scope = EvalScope { fields, current: Some(&item) };
            match eval_bool(cond, &scope) {
                Ok(stop) => stop,
                Err(e) => return Err(e),
            }
        };
        let ghost before = result::value_models(items@);
        let ghost added = item@;
        items.push(item);
        assert(result::value_models(items@) =~= before.push(added));
        if stop {
            return Ok(array(items));
        }
        if cursor.remaining() == 0 {
            return Err(
                field_fault(
                    frame.field(i).id.as_str(),
                    "`: `repeat-until` condition never became true before end of data",
                ),
            );
        }
        if cursor.pos == here {
            return Err(field_fault(frame.field(i).id.as_str(), "`: repeated item takes no data"));
        }
    }
}

/// Decodes field `i` with its repetitions.
fn decode_field(frame: &Frame, i: usize, fields: &Fields, cursor: &mut Cursor) -> (r: Result<
    Value,
    Error,
>)
    requires
        frame.wf(),
        i < members(frame@).len(),
        old(cursor).wf(),
    ensures
        agrees(
            r,
            occurrences(frame@, i as int, fields@, old(cursor).bytes@, old(cursor).pos as nat),
            *old(cursor),
            *final(cursor),
        ),
    decreases frame@.entry, slack(frame@), 5 * to_come(frame@, i as int) + 3, 0nat,
{
    match &frame.field(i).repeat {
        None => decode_field_value(frame, i, fields, cursor),
        Some(RepeatSpec::Expr(e)) => {
            let scope = EvalScope { fields, current: None };
            match eval_usize(e, &scope) {
                Ok(count) => decode_count(frame, i, fields, count, cursor),
                Err(e) => Err(e),
            }
        },
        Some(RepeatSpec::Eos) => decode_to_end(frame, i, fields, cursor),
        Some(RepeatSpec::Until(e)) => decode_until(frame, i, fields, e, cursor),
    }
}

/// Decodes the fields of the current type.
#[verifier::spinoff_prover]
#[verifier::rlimit(40)]
fn decode_type(frame: &Frame, cursor: &mut Cursor) -> (r: Result<Fields, Error>)
    requires
        frame.wf(),
        old(cursor).wf(),
    ensures
        agrees(
            r,
            fields_from(frame@, 0, Seq::empty(), old(cursor).bytes@, old(cursor).pos as nat),
            *old(cursor),
            *final(cursor),
        ),
    decreases frame@.entry, slack(frame@), 5 * to_come(frame@, 0) + 4, 0nat,
{
    let ghost b = cursor.bytes@;
    let ghost start = cursor.pos as nat;
    let ghost whole = fields_from(frame@, 0, Seq::empty(), b, start);
    let mut fields = Fields::new();
    let count: usize = frame.current().seq.len();
    let mut i: usize = 0;
    while i < count
        invariant
            frame.wf(),
            i <= count == members(frame@).len(),
            cursor.wf(),
            cursor.bytes == old(cursor).bytes,
            b == cursor.bytes@,
            start == old(cursor).pos <= cursor.pos,
            whole == fields_from(frame@, 0, Seq::empty(), b, start),
            whole == further(
                (cursor.pos - start) as nat,
                fields_from(frame@, i as int, fields@, b, cursor.pos as nat),
            ),
        decreases count - i,
    {
        let ghost here = cursor.pos as nat;
        let ghost done = fields@;
        let ghost rest = fields_from(frame@, i as int, done, b, here);
        let field = frame.field(i);
        let skip = match &field.if_cond {
            Some(cond) => {
                let scope = EvalScope { fields: &fields, current: None };
                match eval_bool(cond, &scope) {
                    Ok(b) => !b,
                    Err(e) => return Err(e),
                }
            },
            None => false,
        };
        assert(skipped(frame@, i as int, done) == Ok::<bool, ErrorModel>(skip));
        if !skip {
            match decode_field(frame, i, &fields, cursor) {
                Ok(value) => {
                    fields.insert(field.id.clone(), value);
                    assert(rest == further(
                        (cursor.pos - here) as nat,
                        fields_from(frame@, i + 1, fields@, b, cursor.pos as nat),
                    ));
                },
                Err(e) => {
                    return Err(e);
                },
            }
        }
        i = i + 1;
    }
    Ok(fields)
}

/// How many types a definition has, with itself and those inside, as far as a
/// machine word goes.
fn count_types(t: &TypeDef) -> (r: usize)
    ensures
        r == (if type_count(t@) <= usize::MAX {
            type_count(t@)
        } else {
            usize::MAX as nat
        }),
    decreases t@,
{
    proof {
        schema::lemma_type_model(*t);
    }
    let mut total: usize = 0;
    let mut i: usize = 0;
    while i < t.types.len()
        invariant
            t@.types == t.types@,
            i <= t.types@.len(),
            total == (if inner_count(t.types@, i as int) <= usize::MAX {
                inner_count(t.types@, i as int)
            } else {
                usize::MAX as nat
            }),
        decreases t.types@.len() - i,
    {
        assert(decreases_to!(t@ => t@.types[i as int].1));
        total = total.saturating_add(count_types(t.types.def_at(i)));
        i = i + 1;
    }
    total.saturating_add(1)
}

/// Decodes bytes according to the root type of a schema.
pub fn decode_root(root: &TypeDef, endian: Endian, bytes: &[u8]) -> (r: Result<Fields, Error>)
    ensures
        error::outcome(r) == decoded(root@, endian, bytes@),
{
    let frame = Frame::outermost(root, endian, bytes.len());
    let mut cursor = Cursor::new(bytes);
    decode_type(&frame, &mut cursor)
}

// ---------------------------------------------------------------------------
// Laws
// ---------------------------------------------------------------------------

/// Entry `k` is declared by field `at[k]`, and the later entry by the later
/// field.
pub open spec fn declared_at(f: Entries, seq: Seq<FieldModel>, at: Seq<int>) -> bool {
    &&& at.len() == f.len()
    &&& forall|k: int|
        0 <= k < at.len() ==> 0 <= #[trigger] at[k] < seq.len() && seq[at[k]].id == f[k].0
    &&& forall|j: int, k: int| 0 <= j < k < at.len() ==> #[trigger] at[j] < #[trigger] at[k]
}

/// The entries stand in the order in which the fields are declared.
pub open spec fn in_declaration_order(f: Entries, seq: Seq<FieldModel>) -> bool {
    exists|at: Seq<int>| #[trigger] declared_at(f, seq, at)
}

proof fn lemma_declaration_order(
    c: FrameModel,
    i: int,
    done: Entries,
    at: Seq<int>,
    b: Seq<u8>,
    p: nat,
)
    requires
        0 <= i,
        declared_at(done, members(c), at),
        forall|k: int| 0 <= k < at.len() ==> #[trigger] at[k] < i,
        named::distinct_names(done),
    ensures
        match fields_from(c, i, done, b, p) {
            Ok((f, _)) => named::distinct_names(f) && in_declaration_order(f, members(c)),
            Err(_) => true,
        },
    decreases to_come(c, i),
{
    if i < members(c).len() {
        match skipped(c, i, done) {
            Err(_) => {},
            Ok(true) => {
                lemma_declaration_order(c, i + 1, done, at, b, p);
            },
            Ok(false) => {
                if let Ok((v, n)) = occurrences(c, i, done, b, p) {
                    let id = members(c)[i].id;
                    let more = named::put_entry(done, id, v);
                    named::lemma_put_distinct(done, id, v);
                    named::lemma_entry_index(done, id);
                    let further_at = match named::entry_index(done, id) {
                        Some(_) => at,
                        None => at.push(i),
                    };
                    assert(declared_at(more, members(c), further_at)) by {
                        assert forall|k: int| 0 <= k < further_at.len() implies 0
                            <= #[trigger] further_at[k] < members(c).len() && members(
                            c,
                        )[further_at[k]].id == more[k].0 by {
                            if k < at.len() {
                                assert(at[k] == further_at[k]);
                                assert(done[k].0 == more[k].0);
                            }
                        }
                    }
                    lemma_declaration_order(c, i + 1, more, further_at, b, p + n);
                }
            },
        }
    }
}

/// The fields of a struct come in the order of their declaration, and none comes
/// twice.
pub proof fn law_fields_keep_their_order(c: FrameModel, b: Seq<u8>, p: nat)
    ensures
        match fields_from(c, 0, Seq::empty(), b, p) {
            Ok((f, _)) => named::distinct_names(f) && in_declaration_order(f, members(c)),
            Err(_) => true,
        },
{
    assert(declared_at(Seq::<(Seq<char>, ValueModel)>::empty(), members(c), Seq::<int>::empty()));
    lemma_declaration_order(c, 0, Seq::empty(), Seq::empty(), b, p);
}

proof fn lemma_before_nul(b: Seq<u8>, p: nat)
    requires
        p <= b.len(),
    ensures
        p + read::before_nul(b, p) <= b.len(),
    decreases read::left(b, p),
{
    if p < b.len() && b[p as int] != 0 {
        lemma_before_nul(b, p + 1);
    }
}

pub(crate) proof fn lemma_single_within(c: FrameModel, i: int, done: Entries, b: Seq<u8>, p: nat)
    requires
        p <= b.len(),
    ensures
        match single(c, i, done, b, p) {
            Ok((_, n)) => p + n <= b.len(),
            Err(_) => true,
        },
    decreases c.entry, slack(c), 5 * to_come(c, i) + 1, 0nat,
{
    let f = members(c)[i];
    lemma_before_nul(b, p);
    if f.contents is None {
        if let Ok(len) = given_size(f, done, read::left(b, p)) {
            let endian = match f.endian_override {
                Some(endian) => endian,
                None => c.endian,
            };
            if let Some(t) = f.type_spec {
                if let Ok(ChosenModel::Named(name)) = chosen(t, f.id, done) {
                    if let Some(k) = level_of(c.chain, name) {
                        if len is None {
                            if let Ok(inner) = entered(c, k, name, endian, read::left(b, p)) {
                                lemma_fields_within(inner, 0, Seq::empty(), b, p);
                            }
                        }
                    }
                }
            }
        }
    }
}

proof fn lemma_repeated_within(
    c: FrameModel,
    i: int,
    done: Entries,
    count: nat,
    items: Seq<ValueModel>,
    b: Seq<u8>,
    p: nat,
)
    requires
        p <= b.len(),
    ensures
        match repeated(c, i, done, count, items, b, p) {
            Ok((_, n)) => p + n <= b.len(),
            Err(_) => true,
        },
    decreases c.entry, slack(c), 5 * to_come(c, i) + 2, count,
{
    if count > 0 {
        lemma_single_within(c, i, done, b, p);
        if let Ok((v, n)) = single(c, i, done, b, p) {
            lemma_repeated_within(c, i, done, (count - 1) as nat, items.push(v), b, p + n);
        }
    }
}

proof fn lemma_to_end_within(
    c: FrameModel,
    i: int,
    done: Entries,
    items: Seq<ValueModel>,
    b: Seq<u8>,
    p: nat,
)
    requires
        p <= b.len(),
    ensures
        match to_end(c, i, done, items, b, p) {
            Ok((_, n)) => p + n == b.len(),
            Err(_) => true,
        },
    decreases c.entry, slack(c), 5 * to_come(c, i) + 2, read::left(b, p),
{
    if p < b.len() {
        lemma_single_within(c, i, done, b, p);
        if let Ok((v, n)) = single(c, i, done, b, p) {
            if n > 0 {
                lemma_to_end_within(c, i, done, items.push(v), b, p + n);
            }
        }
    }
}

proof fn lemma_until_within(
    c: FrameModel,
    i: int,
    done: Entries,
    cond: ExprModel,
    items: Seq<ValueModel>,
    b: Seq<u8>,
    p: nat,
)
    requires
        p <= b.len(),
    ensures
        match until(c, i, done, cond, items, b, p) {
            Ok((_, n)) => p + n <= b.len(),
            Err(_) => true,
        },
    decreases c.entry, slack(c), 5 * to_come(c, i) + 2, read::left(b, p),
{
    lemma_single_within(c, i, done, b, p);
    if let Ok((v, n)) = single(c, i, done, b, p) {
        if n > 0 && p + n < b.len() {
            lemma_until_within(c, i, done, cond, items.push(v), b, p + n);
        }
    }
}

pub(crate) proof fn lemma_occurrences_within(c: FrameModel, i: int, done: Entries, b: Seq<u8>, p: nat)
    requires
        p <= b.len(),
    ensures
        match occurrences(c, i, done, b, p) {
            Ok((_, n)) => p + n <= b.len(),
            Err(_) => true,
        },
    decreases c.entry, slack(c), 5 * to_come(c, i) + 3, 0nat,
{
    match members(c)[i].repeat {
        None => {
            lemma_single_within(c, i, done, b, p);
        },
        Some(RepeatModel::Expr(e)) => {
            if let Ok(count) = eval::measured(e, scope(done)) {
                lemma_repeated_within(c, i, done, count as nat, Seq::empty(), b, p);
            }
        },
        Some(RepeatModel::Eos) => {
            lemma_to_end_within(c, i, done, Seq::empty(), b, p);
        },
        Some(RepeatModel::Until(e)) => {
            lemma_until_within(c, i, done, e, Seq::empty(), b, p);
        },
    }
}

proof fn lemma_fields_within(c: FrameModel, i: int, done: Entries, b: Seq<u8>, p: nat)
    requires
        p <= b.len(),
    ensures
        match fields_from(c, i, done, b, p) {
            Ok((_, n)) => p + n <= b.len(),
            Err(_) => true,
        },
    decreases c.entry, slack(c), 5 * to_come(c, i) + 4, 0nat,
{
    if 0 <= i < members(c).len() {
        match skipped(c, i, done) {
            Ok(true) => {
                lemma_fields_within(c, i + 1, done, b, p);
            },
            Ok(false) => {
                lemma_occurrences_within(c, i, done, b, p);
                if let Ok((v, n)) = occurrences(c, i, done, b, p) {
                    lemma_fields_within(
                        c,
                        i + 1,
                        named::put_entry(done, members(c)[i].id, v),
                        b,
                        p + n,
                    );
                }
            },
            Err(_) => {},
        }
    }
}

/// No more bytes are taken than there are.
pub proof fn law_no_more_is_taken_than_there_is(c: FrameModel, b: Seq<u8>, p: nat)
    requires
        p <= b.len(),
    ensures
        match fields_from(c, 0, Seq::empty(), b, p) {
            Ok((_, n)) => p + n <= b.len(),
            Err(_) => true,
        },
{
    lemma_fields_within(c, 0, Seq::empty(), b, p);
}

/// A field repeated to the end of the data leaves nothing.
pub proof fn law_repeating_to_the_end_leaves_nothing(
    c: FrameModel,
    i: int,
    done: Entries,
    b: Seq<u8>,
    p: nat,
)
    requires
        p <= b.len(),
        members(c)[i].repeat == Some(RepeatModel::Eos),
    ensures
        match occurrences(c, i, done, b, p) {
            Ok((_, n)) => p + n == b.len(),
            Err(_) => true,
        },
{
    lemma_to_end_within(c, i, done, Seq::empty(), b, p);
}

/// The same bytes are left.
pub open spec fn same_rest(b: Seq<u8>, p: nat, d: Seq<u8>, q: nat) -> bool {
    p <= b.len() && q <= d.len() && b.skip(p as int) == d.skip(q as int)
}

proof fn lemma_same_taken(b: Seq<u8>, p: nat, d: Seq<u8>, q: nat, n: nat, id: Seq<char>)
    requires
        same_rest(b, p, d, q),
    ensures
        read::left(b, p) == read::left(d, q),
        read::taken(b, p, n, id) == read::taken(d, q, n, id),
        p + n <= b.len() ==> same_rest(b, p + n, d, q + n),
{
    assert(b.skip(p as int).len() == d.skip(q as int).len());
    if p + n <= b.len() {
        assert(b.subrange(p as int, (p + n) as int) =~= b.skip(p as int).take(n as int));
        assert(d.subrange(q as int, (q + n) as int) =~= d.skip(q as int).take(n as int));
        assert(b.skip((p + n) as int) =~= b.skip(p as int).skip(n as int));
        assert(d.skip((q + n) as int) =~= d.skip(q as int).skip(n as int));
    }
}

proof fn lemma_same_before_nul(b: Seq<u8>, p: nat, d: Seq<u8>, q: nat)
    requires
        same_rest(b, p, d, q),
    ensures
        read::before_nul(b, p) == read::before_nul(d, q),
    decreases read::left(b, p),
{
    assert(b.skip(p as int).len() == d.skip(q as int).len());
    if p < b.len() {
        assert(b.skip(p as int)[0] == b[p as int]);
        assert(d.skip(q as int)[0] == d[q as int]);
        lemma_same_taken(b, p, d, q, 1, Seq::empty());
        if b[p as int] != 0 {
            lemma_same_before_nul(b, p + 1, d, q + 1);
        }
    }
}

proof fn lemma_same_single(
    c: FrameModel,
    i: int,
    done: Entries,
    b: Seq<u8>,
    p: nat,
    d: Seq<u8>,
    q: nat,
)
    requires
        same_rest(b, p, d, q),
    ensures
        single(c, i, done, b, p) == single(c, i, done, d, q),
    decreases c.entry, slack(c), 5 * to_come(c, i) + 1, 0nat,
{
    let f = members(c)[i];
    lemma_same_taken(b, p, d, q, 0, f.id);
    if let Some(expected) = f.contents {
        lemma_same_taken(b, p, d, q, expected.len(), f.id);
    } else if let Ok(len) = given_size(f, done, read::left(b, p)) {
        let endian = match f.endian_override {
            Some(endian) => endian,
            None => c.endian,
        };
        if let Some(n) = len {
            lemma_same_taken(b, p, d, q, n as nat, f.id);
        }
        if let Some(t) = f.type_spec {
            match chosen(t, f.id, done) {
                Ok(ChosenModel::Primitive(prim)) => {
                    lemma_same_before_nul(b, p, d, q);
                    lemma_same_taken(b, p, d, q, read::before_nul(b, p), f.id);
                    if let Some(n) = schema::byte_size(prim) {
                        lemma_same_taken(b, p, d, q, n as nat, f.id);
                    }
                    assert(b.skip(p as int).len() == d.skip(q as int).len());
                },
                Ok(ChosenModel::Named(name)) => {
                    if let Some(k) = level_of(c.chain, name) {
                        if len is None {
                            if let Ok(inner) = entered(c, k, name, endian, read::left(b, p)) {
                                lemma_same_fields(inner, 0, Seq::empty(), b, p, d, q);
                            }
                        }
                    }
                },
                Err(_) => {},
            }
        }
    }
}

proof fn lemma_same_repeated(
    c: FrameModel,
    i: int,
    done: Entries,
    count: nat,
    items: Seq<ValueModel>,
    b: Seq<u8>,
    p: nat,
    d: Seq<u8>,
    q: nat,
)
    requires
        same_rest(b, p, d, q),
    ensures
        repeated(c, i, done, count, items, b, p) == repeated(c, i, done, count, items, d, q),
    decreases c.entry, slack(c), 5 * to_come(c, i) + 2, count,
{
    if count > 0 {
        lemma_same_single(c, i, done, b, p, d, q);
        lemma_single_within(c, i, done, b, p);
        if let Ok((v, n)) = single(c, i, done, b, p) {
            lemma_same_taken(b, p, d, q, n, Seq::empty());
            lemma_same_repeated(
                c,
                i,
                done,
                (count - 1) as nat,
                items.push(v),
                b,
                p + n,
                d,
                q + n,
            );
        }
    }
}

proof fn lemma_same_to_end(
    c: FrameModel,
    i: int,
    done: Entries,
    items: Seq<ValueModel>,
    b: Seq<u8>,
    p: nat,
    d: Seq<u8>,
    q: nat,
)
    requires
        same_rest(b, p, d, q),
    ensures
        to_end(c, i, done, items, b, p) == to_end(c, i, done, items, d, q),
    decreases c.entry, slack(c), 5 * to_come(c, i) + 2, read::left(b, p),
{
    assert(b.skip(p as int).len() == d.skip(q as int).len());
    if p < b.len() {
        lemma_same_single(c, i, done, b, p, d, q);
        lemma_single_within(c, i, done, b, p);
        if let Ok((v, n)) = single(c, i, done, b, p) {
            if n > 0 {
                lemma_same_taken(b, p, d, q, n, Seq::empty());
                lemma_same_to_end(c, i, done, items.push(v), b, p + n, d, q + n);
            }
        }
    }
}

proof fn lemma_same_until(
    c: FrameModel,
    i: int,
    done: Entries,
    cond: ExprModel,
    items: Seq<ValueModel>,
    b: Seq<u8>,
    p: nat,
    d: Seq<u8>,
    q: nat,
)
    requires
        same_rest(b, p, d, q),
    ensures
        until(c, i, done, cond, items, b, p) == until(c, i, done, cond, items, d, q),
    decreases c.entry, slack(c), 5 * to_come(c, i) + 2, read::left(b, p),
{
    assert(b.skip(p as int).len() == d.skip(q as int).len());
    lemma_same_single(c, i, done, b, p, d, q);
    lemma_single_within(c, i, done, b, p);
    if let Ok((v, n)) = single(c, i, done, b, p) {
        if n > 0 && p + n < b.len() {
            lemma_same_taken(b, p, d, q, n, Seq::empty());
            lemma_same_until(c, i, done, cond, items.push(v), b, p + n, d, q + n);
        }
    }
}

proof fn lemma_same_occurrences(
    c: FrameModel,
    i: int,
    done: Entries,
    b: Seq<u8>,
    p: nat,
    d: Seq<u8>,
    q: nat,
)
    requires
        same_rest(b, p, d, q),
    ensures
        occurrences(c, i, done, b, p) == occurrences(c, i, done, d, q),
    decreases c.entry, slack(c), 5 * to_come(c, i) + 3, 0nat,
{
    match members(c)[i].repeat {
        None => {
            lemma_same_single(c, i, done, b, p, d, q);
        },
        Some(RepeatModel::Expr(e)) => {
            if let Ok(count) = eval::measured(e, scope(done)) {
                lemma_same_repeated(c, i, done, count as nat, Seq::empty(), b, p, d, q);
            }
        },
        Some(RepeatModel::Eos) => {
            lemma_same_to_end(c, i, done, Seq::empty(), b, p, d, q);
        },
        Some(RepeatModel::Until(e)) => {
            lemma_same_until(c, i, done, e, Seq::empty(), b, p, d, q);
        },
    }
}

proof fn lemma_same_fields(
    c: FrameModel,
    i: int,
    done: Entries,
    b: Seq<u8>,
    p: nat,
    d: Seq<u8>,
    q: nat,
)
    requires
        same_rest(b, p, d, q),
    ensures
        fields_from(c, i, done, b, p) == fields_from(c, i, done, d, q),
    decreases c.entry, slack(c), 5 * to_come(c, i) + 4, 0nat,
{
    if 0 <= i < members(c).len() {
        match skipped(c, i, done) {
            Ok(true) => {
                lemma_same_fields(c, i + 1, done, b, p, d, q);
            },
            Ok(false) => {
                lemma_same_occurrences(c, i, done, b, p, d, q);
                lemma_occurrences_within(c, i, done, b, p);
                if let Ok((v, n)) = occurrences(c, i, done, b, p) {
                    lemma_same_taken(b, p, d, q, n, Seq::empty());
                    lemma_same_fields(
                        c,
                        i + 1,
                        named::put_entry(done, members(c)[i].id, v),
                        b,
                        p + n,
                        d,
                        q + n,
                    );
                }
            },
            Err(_) => {},
        }
    }
}

/// What a type decodes to depends only on the bytes that are left, not on those
/// before them.
pub proof fn law_only_what_is_left_counts(
    c: FrameModel,
    b: Seq<u8>,
    p: nat,
    d: Seq<u8>,
    q: nat,
)
    requires
        same_rest(b, p, d, q),
    ensures
        fields_from(c, 0, Seq::empty(), b, p) == fields_from(c, 0, Seq::empty(), d, q),
{
    lemma_same_fields(c, 0, Seq::empty(), b, p, d, q);
}

/// What a type of the chain decodes to, on its own, from all of the bytes `s`.
pub open spec fn decoded_apart(
    c: FrameModel,
    k: int,
    name: Seq<char>,
    endian: Endian,
    s: Seq<u8>,
) -> Result<Entries, ErrorModel> {
    match entered(c, k, name, endian, s.len()) {
        Err(e) => Err(e),
        Ok(inner) => match fields_from(inner, 0, Seq::empty(), s, 0) {
            Err((e, _)) => Err(e),
            Ok((fields, _)) => Ok(fields),
        },
    }
}

/// A nested type with a size sees the bytes of that size and no others: what it
/// comes to is what it comes to on these bytes alone, whatever stands before and
/// after them. It takes all of them, however few it uses.
pub proof fn law_sized_types_see_only_their_bytes(
    name: Seq<char>,
    n: usize,
    encoding: Option<Seq<char>>,
    c: FrameModel,
    endian: Endian,
    id: Seq<char>,
    done: Entries,
    b: Seq<u8>,
    p: nat,
)
    requires
        p + n <= b.len(),
        level_of(c.chain, name) is Some,
    ensures
        typed(
            Some(TypeSpecModel::Named(name)),
            Some(n),
            encoding,
            c,
            endian,
            id,
            done,
            b,
            p,
        ) == (match decoded_apart(
            c,
            level_of(c.chain, name)->0,
            name,
            endian,
            b.subrange(p as int, p + n),
        ) {
            Ok(fields) => Ok((ValueModel::Struct(fields), n as nat)),
            Err(e) => Err((e, n as nat)),
        }),
{
}

proof fn lemma_first_case(
    cases: Seq<(CaseModel, TypeSpecModel)>,
    i: int,
    k: int,
    on: ValueModel,
    done: Entries,
)
    requires
        0 <= i <= k <= cases.len(),
        forall|j: int| i <= j < k ==> !#[trigger] falls_under(cases, j, on, done),
        k < cases.len() ==> falls_under(cases, k, on, done),
    ensures
        case_from(cases, i, on, done) == (if k < cases.len() {
            Some(k)
        } else {
            None
        }),
    decreases k - i,
{
    if i < k {
        assert(!falls_under(cases, i, on, done));
        lemma_first_case(cases, i + 1, k, on, done);
    }
}

/// A switch comes to what the first case that the value falls under comes to;
/// `k` is that case, or the number of cases where there is none, and then it is
/// an error.
pub proof fn law_switches_take_their_first_case(
    on: ExprModel,
    cases: Seq<(CaseModel, TypeSpecModel)>,
    v: ValueModel,
    k: int,
    len: Option<usize>,
    encoding: Option<Seq<char>>,
    c: FrameModel,
    endian: Endian,
    id: Seq<char>,
    done: Entries,
    b: Seq<u8>,
    p: nat,
)
    requires
        eval::evaluated(on, scope(done)) == Ok::<ValueModel, ErrorModel>(v),
        0 <= k <= cases.len(),
        forall|j: int| 0 <= j < k ==> !#[trigger] falls_under(cases, j, v, done),
        k < cases.len() ==> falls_under(cases, k, v, done),
    ensures
        ({
            let t = TypeSpecModel::Switch { on, cases };
            let r = typed(Some(t), len, encoding, c, endian, id, done, b, p);
            if k < cases.len() {
                r == typed(Some(cases[k].1), len, encoding, c, endian, id, done, b, p)
            } else {
                &&& r == Decoded::<ValueModel>::Err(
                    (
                        ErrorModel::ProtocolValue(
                            "field `"@ + id + "`: no switch case matches value "@,
                            v,
                        ),
                        0,
                    ),
                )
            }
        }),
{
    lemma_first_case(cases, 0, k, v, done);
}

} // verus!
