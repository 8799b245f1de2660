//! Schemas: how a `.ksy` document is read into a tree of type definitions.
//!
//! Of Kaitai Struct there is what simple and medium protocols need: integer,
//! floating-point, string and byte fields, `size` and `size-eos`, conditions
//! (`if`), repetition (`repeat` with `expr`, `eos` or `until`), magic bytes
//! (`contents`), names of values (`enum`), and types of the user's own (also
//! switch types), referred to by name in `type`.
use std::collections::HashMap;
use vstd::prelude::*;

use crate::error::Error;
use crate::ksy::expr::{self, Expr};
use crate::ksy::yaml::{get, read, Node, Yaml};
use crate::named::{find, put};
use crate::text::{chars_of, concat2, concat3, concat4};
#[allow(unused_imports)]
use crate::{
    error, error::ErrorModel, ksy::expr::ExprModel, ksy::yaml, ksy::yaml::NodeModel,
    ksy::yaml::YamlModel, named, text,
};

verus! {

#[derive(Debug, Clone, Copy, PartialEq, Eq, Structural)]
pub enum Endian {
    Little,
    Big,
}

#[derive(Debug, Clone, Copy, PartialEq, Eq, Structural)]
pub enum PrimType {
    U1,
    U2,
    U4,
    U8,
    S1,
    S2,
    S4,
    S8,
    F4,
    F8,
    Str,
    StrZ,
}

/// The type of a field.
#[derive(Debug, PartialEq)]
pub enum TypeSpec {
    Primitive(PrimType),
    /// A type that the `types` map of the enclosing type, or of one further
    /// out, defines under this name.
    Named(String),
    /// `type: {switch-on: expr, cases: {value: type, ...}}`.
    Switch { on: Expr, cases: Vec<(SwitchCase, TypeSpec)> },
}

#[derive(Debug, PartialEq)]
pub enum SwitchCase {
    Value(Expr),
    Default,
}

#[derive(Debug, PartialEq)]
pub enum RepeatSpec {
    Expr(Expr),
    Until(Expr),
    Eos,
}

#[derive(Debug)]
pub struct FieldDef {
    pub id: String,
    pub type_spec: Option<TypeSpec>,
    pub size: Option<Expr>,
    pub size_eos: bool,
    pub repeat: Option<RepeatSpec>,
    pub if_cond: Option<Expr>,
    pub encoding: Option<String>,
    pub contents: Option<Vec<u8>>,
    pub enum_name: Option<String>,
    /// The byte order that a suffix of the type (`u2le`, `u4be`) asks for.
    pub endian_override: Option<Endian>,
}

#[derive(Debug)]
pub struct TypeDef {
    pub seq: Vec<FieldDef>,
    /// The types that this type's own `types` map defines.
    pub types: TypeMap,
    /// The `enums` of this type.
    pub enums: EnumMap,
}

/// Type definitions by name.
#[derive(Debug)]
pub struct TypeMap {
    entries: Vec<(String, TypeDef)>,
}

/// Enumerations by name: under each the symbols of its values.
#[derive(Debug)]
pub struct EnumMap {
    entries: Vec<(String, HashMap<i64, String>)>,
}

#[derive(Debug)]
pub struct KsySchema {
    pub root: TypeDef,
    pub endian: Endian,
}

// ---------------------------------------------------------------------------
// Mathematical counterparts
// ---------------------------------------------------------------------------

pub enum TypeSpecModel {
    Primitive(PrimType),
    Named(Seq<char>),
    Switch { on: ExprModel, cases: Seq<(CaseModel, TypeSpecModel)> },
}

pub enum CaseModel {
    Value(ExprModel),
    Default,
}

pub enum RepeatModel {
    Expr(ExprModel),
    Until(ExprModel),
    Eos,
}

pub struct FieldModel {
    pub id: Seq<char>,
    pub type_spec: Option<TypeSpecModel>,
    pub size: Option<ExprModel>,
    pub size_eos: bool,
    pub repeat: Option<RepeatModel>,
    pub if_cond: Option<ExprModel>,
    pub encoding: Option<Seq<char>>,
    pub contents: Option<Seq<u8>>,
    pub enum_name: Option<Seq<char>>,
    pub endian_override: Option<Endian>,
}

pub struct TypeModel {
    pub seq: Seq<FieldModel>,
    pub types: Seq<(Seq<char>, TypeModel)>,
    pub enums: Seq<(Seq<char>, Map<i64, Seq<char>>)>,
}

pub struct SchemaModel {
    pub root: TypeModel,
    pub endian: Endian,
}

impl View for SwitchCase {
    type V = CaseModel;

    open spec fn view(&self) -> CaseModel {
        match *self {
            SwitchCase::Value(e) => CaseModel::Value(e@),
            SwitchCase::Default => CaseModel::Default,
        }
    }
}

impl View for RepeatSpec {
    type V = RepeatModel;

    open spec fn view(&self) -> RepeatModel {
        match *self {
            RepeatSpec::Expr(e) => RepeatModel::Expr(e@),
            RepeatSpec::Until(e) => RepeatModel::Until(e@),
            RepeatSpec::Eos => RepeatModel::Eos,
        }
    }
}

pub closed spec fn type_spec_model(t: TypeSpec) -> TypeSpecModel
    decreases t,
{
    match t {
        TypeSpec::Primitive(p) => TypeSpecModel::Primitive(p),
        TypeSpec::Named(n) => TypeSpecModel::Named(n@),
        TypeSpec::Switch { on, cases } => TypeSpecModel::Switch {
            on: on@,
            cases: Seq::new(
                cases@.len(),
                |i: int|
                    if 0 <= i < cases@.len() {
                        (cases@[i].0@, type_spec_model(cases@[i].1))
                    } else {
                        arbitrary()
                    },
            ),
        },
    }
}

impl View for TypeSpec {
    type V = TypeSpecModel;

    open spec fn view(&self) -> TypeSpecModel {
        type_spec_model(*self)
    }
}

pub open spec fn case_models(cases: Seq<(SwitchCase, TypeSpec)>) -> Seq<
    (CaseModel, TypeSpecModel),
> {
    Seq::new(cases.len(), |i: int| (cases[i].0@, cases[i].1@))
}

pub proof fn lemma_type_spec_model(t: TypeSpec)
    ensures
        t@ == (match t {
            TypeSpec::Primitive(p) => TypeSpecModel::Primitive(p),
            TypeSpec::Named(n) => TypeSpecModel::Named(n@),
            TypeSpec::Switch { on, cases } => TypeSpecModel::Switch {
                on: on@,
                cases: case_models(cases@),
            },
        }),
{
    if let TypeSpec::Switch { on, cases } = t {
        assert(t@->cases =~= case_models(cases@));
    }
}

impl View for FieldDef {
    type V = FieldModel;

    open spec fn view(&self) -> FieldModel {
        FieldModel {
            id: self.id@,
            type_spec: error::seen(self.type_spec),
            size: error::seen(self.size),
            size_eos: self.size_eos,
            repeat: error::seen(self.repeat),
            if_cond: error::seen(self.if_cond),
            encoding: error::seen(self.encoding),
            contents: error::seen(self.contents),
            enum_name: error::seen(self.enum_name),
            endian_override: self.endian_override,
        }
    }
}

pub open spec fn field_models(s: Seq<FieldDef>) -> Seq<FieldModel> {
    Seq::new(s.len(), |i: int| s[i]@)
}

/// The symbols of an enumeration.
pub open spec fn symbol_model(m: HashMap<i64, String>) -> Map<i64, Seq<char>> {
    m@.map_values(|s: String| s@)
}

impl View for EnumMap {
    type V = Seq<(Seq<char>, Map<i64, Seq<char>>)>;

    closed spec fn view(&self) -> Seq<(Seq<char>, Map<i64, Seq<char>>)> {
        Seq::new(
            self.entries@.len(),
            |i: int| (self.entries@[i].0@, symbol_model(self.entries@[i].1)),
        )
    }
}

pub closed spec fn type_model(t: TypeDef) -> TypeModel
    decreases t,
{
    TypeModel {
        seq: field_models(t.seq@),
        types: Seq::new(
            t.types.entries@.len(),
            |i: int|
                if 0 <= i < t.types.entries@.len() {
                    (t.types.entries@[i].0@, type_model(t.types.entries@[i].1))
                } else {
                    arbitrary()
                },
        ),
        enums: t.enums@,
    }
}

impl View for TypeDef {
    type V = TypeModel;

    open spec fn view(&self) -> TypeModel {
        type_model(*self)
    }
}

impl View for TypeMap {
    type V = Seq<(Seq<char>, TypeModel)>;

    closed spec fn view(&self) -> Seq<(Seq<char>, TypeModel)> {
        Seq::new(self.entries@.len(), |i: int| (self.entries@[i].0@, self.entries@[i].1@))
    }
}

pub proof fn lemma_type_model(t: TypeDef)
    ensures
        t@ == (TypeModel {
            seq: field_models(t.seq@),
            types: t.types@,
            enums: t.enums@,
        }),
{
    assert(t@.types =~= t.types@);
}

impl View for KsySchema {
    type V = SchemaModel;

    open spec fn view(&self) -> SchemaModel {
        SchemaModel { root: self.root@, endian: self.endian }
    }
}

// ---------------------------------------------------------------------------
// Maps
// ---------------------------------------------------------------------------

impl TypeMap {
    /// No name stands twice.
    #[verifier::type_invariant]
    spec fn distinct(self) -> bool {
        named::distinct_names(named::keyed(self.entries@))
    }

    pub fn new() -> (r: TypeMap)
        ensures
            r@ == Seq::<(Seq<char>, TypeModel)>::empty(),
    {
        let r = TypeMap { entries: Vec::new() };
        assert(r@ =~= Seq::<(Seq<char>, TypeModel)>::empty());
        r
    }

    pub fn get(&self, name: &str) -> (r: Option<&TypeDef>)
        ensures
            match (r, named::find_entry(self@, name@)) {
                (Some(t), Some(m)) => t@ == m,
                (None, None) => true,
                _ => false,
            },
    {
        proof {
            named::lemma_entry_index(named::keyed(self.entries@), name@);
            named::lemma_entry_index_same_names(named::keyed(self.entries@), self@, name@);
        }
        find(&self.entries, name)
    }

    pub fn contains_key(&self, name: &str) -> (r: bool)
        ensures
            r == (named::find_entry(self@, name@) is Some),
    {
        self.get(name).is_some()
    }

    pub fn len(&self) -> (r: usize)
        ensures
            r == self@.len(),
    {
        self.entries.len()
    }

    /// The definition at a place in the order of the document.
    pub fn def_at(&self, i: usize) -> (r: &TypeDef)
        requires
            i < self@.len(),
        ensures
            r@ == self@[i as int].1,
    {
        &self.entries[i].1
    }

    /// Puts a definition under a name, over the one that was there.
    pub fn insert(&mut self, name: String, def: TypeDef)
        ensures
            final(self)@ == named::put_entry(old(self)@, name@, def@),
    {
        proof {
            use_type_invariant(&*self);
            let before = named::keyed(self.entries@);
            named::lemma_entry_index(before, name@);
            named::lemma_entry_index_same_names(before, self@, name@);
            named::lemma_put_distinct(before, name@, def);
        }
        let ghost before = self@;
        let ghost result = named::put_entry(named::keyed(self.entries@), name@, def);
        let mut entries: Vec<(String, TypeDef)> = Vec::new();
        std::mem::swap(&mut entries, &mut self.entries);
        put(&mut entries, name, def);
        let ghost after = entries@;
        self.entries = entries;
        proof {
            let target = named::put_entry(before, name@, def@);
            assert(self@.len() == target.len());
            assert forall|i: int| 0 <= i < target.len() implies self@[i] == target[i] by {
                assert(named::keyed(after)[i] == result[i]);
            }
            assert(self@ =~= target);
        }
    }
}

impl EnumMap {
    /// No name stands twice.
    #[verifier::type_invariant]
    spec fn distinct(self) -> bool {
        named::distinct_names(named::keyed(self.entries@))
    }

    pub fn new() -> (r: EnumMap)
        ensures
            r@ == Seq::<(Seq<char>, Map<i64, Seq<char>>)>::empty(),
    {
        let r = EnumMap { entries: Vec::new() };
        assert(r@ =~= Seq::<(Seq<char>, Map<i64, Seq<char>>)>::empty());
        r
    }

    pub fn get(&self, name: &str) -> (r: Option<&HashMap<i64, String>>)
        ensures
            match (r, named::find_entry(self@, name@)) {
                (Some(t), Some(m)) => symbol_model(*t) == m,
                (None, None) => true,
                _ => false,
            },
    {
        proof {
            named::lemma_entry_index(named::keyed(self.entries@), name@);
            named::lemma_entry_index_same_names(named::keyed(self.entries@), self@, name@);
        }
        find(&self.entries, name)
    }

    /// Puts the symbols of an enumeration under a name, over those that were
    /// there.
    pub fn insert(&mut self, name: String, symbols: HashMap<i64, String>)
        ensures
            final(self)@ == named::put_entry(old(self)@, name@, symbol_model(symbols)),
    {
        proof {
            use_type_invariant(&*self);
            let before = named::keyed(self.entries@);
            named::lemma_entry_index(before, name@);
            named::lemma_entry_index_same_names(before, self@, name@);
            named::lemma_put_distinct(before, name@, symbols);
        }
        let ghost before = self@;
        let ghost result = named::put_entry(named::keyed(self.entries@), name@, symbols);
        let mut entries: Vec<(String, HashMap<i64, String>)> = Vec::new();
        std::mem::swap(&mut entries, &mut self.entries);
        put(&mut entries, name, symbols);
        let ghost after = entries@;
        self.entries = entries;
        proof {
            let target = named::put_entry(before, name@, symbol_model(symbols));
            assert(self@.len() == target.len());
            assert forall|i: int| 0 <= i < target.len() implies self@[i] == target[i] by {
                assert(named::keyed(after)[i] == result[i]);
            }
            assert(self@ =~= target);
        }
    }
}

// ---------------------------------------------------------------------------
// Copies
// ---------------------------------------------------------------------------

impl Clone for SwitchCase {
    fn clone(&self) -> (r: SwitchCase)
        ensures
            r@ == self@,
    {
        match self {
            SwitchCase::Value(e) => SwitchCase::Value(e.clone()),
            SwitchCase::Default => SwitchCase::Default,
        }
    }
}

impl Clone for RepeatSpec {
    fn clone(&self) -> (r: RepeatSpec)
        ensures
            r@ == self@,
    {
        match self {
            RepeatSpec::Expr(e) => RepeatSpec::Expr(e.clone()),
            RepeatSpec::Until(e) => RepeatSpec::Until(e.clone()),
            RepeatSpec::Eos => RepeatSpec::Eos,
        }
    }
}

impl Clone for TypeSpec {
    fn clone(&self) -> (r: TypeSpec)
        ensures
            r@ == self@,
        decreases self@,
    {
        proof {
            lemma_type_spec_model(*self);
        }
        match self {
            TypeSpec::Primitive(p) => TypeSpec::Primitive(*p),
            TypeSpec::Named(n) => TypeSpec::Named(n.clone()),
            TypeSpec::Switch { on, cases } => {
                let ghost m = case_models(cases@);
                let mut out: Vec<(SwitchCase, TypeSpec)> = Vec::new();
                let mut i: usize = 0;
                while i < cases.len()
                    invariant
                        self@ == (TypeSpecModel::Switch { on: on@, cases: m }),
                        m == case_models(cases@),
                        i <= cases@.len(),
                        out@.len() == i,
                        forall|k: int|
                            0 <= k < i ==> ((#[trigger] out@[k]).0@, out@[k].1@) == m[k],
                    decreases cases@.len() - i,
                {
                    assert(m[i as int] == (cases@[i as int].0@, cases@[i as int].1@));
                    assert(decreases_to!(self@ => self@->cases[i as int].1));
                    out.push((cases[i].0.clone(), cases[i].1.clone()));
                    i = i + 1;
                }
                let r = TypeSpec::Switch { on: on.clone(), cases: out };
                proof {
                    lemma_type_spec_model(r);
                    assert(case_models(out@) =~= m);
                }
                r
            },
        }
    }
}

fn copied_expr(o: &Option<Expr>) -> (r: Option<Expr>)
    ensures
        error::seen(r) == error::seen(*o),
{
    match o {
        Some(e) => Some(e.clone()),
        None => None,
    }
}

fn copied_text(o: &Option<String>) -> (r: Option<String>)
    ensures
        error::seen(r) == error::seen(*o),
{
    match o {
        Some(s) => Some(s.clone()),
        None => None,
    }
}

impl Clone for FieldDef {
    fn clone(&self) -> (r: FieldDef)
        ensures
            r@ == self@,
    {
        FieldDef {
            id: self.id.clone(),
            type_spec: match &self.type_spec {
                Some(t) => Some(t.clone()),
                None => None,
            },
            size: copied_expr(&self.size),
            size_eos: self.size_eos,
            repeat: match &self.repeat {
                Some(t) => Some(t.clone()),
                None => None,
            },
            if_cond: copied_expr(&self.if_cond),
            encoding: copied_text(&self.encoding),
            contents: match &self.contents {
                Some(b) => {
                    let copy = b.clone();
                    assert(copy@ =~= b@);
                    Some(copy)
                },
                None => None,
            },
            enum_name: copied_text(&self.enum_name),
            endian_override: self.endian_override,
        }
    }
}

impl Clone for EnumMap {
    fn clone(&self) -> (r: EnumMap)
        ensures
            r@ == self@,
    {
        proof {
            use_type_invariant(self);
        }
        let mut out = EnumMap::new();
        let mut i: usize = 0;
        while i < self.entries.len()
            invariant
                named::distinct_names(named::keyed(self.entries@)),
                i <= self.entries@.len(),
                out@ =~= self@.take(i as int),
            decreases self.entries@.len() - i,
        {
            proof {
                let keyed = named::keyed(self.entries@);
                let name = self.entries@[i as int].0@;
                named::lemma_entry_index(out@, name);
                assert forall|k: int| 0 <= k < out@.len() implies (#[trigger] out@[k]).0
                    != name by {
                    assert(out@[k] == self@[k]);
                    assert(keyed[k].0 != keyed[i as int].0);
                }
            }
            out.insert(self.entries[i].0.clone(), self.entries[i].1.clone());
            i = i + 1;
        }
        assert(self@.take(i as int) =~= self@);
        out
    }
}

impl Clone for TypeDef {
    fn clone(&self) -> (r: TypeDef)
        ensures
            r@ == self@,
        decreases self@,
    {
        proof {
            lemma_type_model(*self);
            use_type_invariant(&self.types);
        }
        let mut seq: Vec<FieldDef> = Vec::new();
        let mut i: usize = 0;
        while i < self.seq.len()
            invariant
                i <= self.seq@.len(),
                seq@.len() == i,
                forall|k: int| 0 <= k < i ==> (#[trigger] seq@[k])@ == self.seq@[k]@,
            decreases self.seq@.len() - i,
        {
            seq.push(self.seq[i].clone());
            i = i + 1;
        }
        assert(field_models(seq@) =~= field_models(self.seq@));
        let mut types = TypeMap::new();
        let mut j: usize = 0;
        while j < self.types.entries.len()
            invariant
                self@.types == self.types@,
                named::distinct_names(named::keyed(self.types.entries@)),
                j <= self.types.entries@.len(),
                types@ =~= self.types@.take(j as int),
            decreases self.types.entries@.len() - j,
        {
            proof {
                let keyed = named::keyed(self.types.entries@);
                let name = self.types.entries@[j as int].0@;
                named::lemma_entry_index(types@, name);
                assert forall|k: int| 0 <= k < types@.len() implies (#[trigger] types@[k]).0
                    != name by {
                    assert(types@[k] == self.types@[k]);
                    assert(keyed[k].0 != keyed[j as int].0);
                }
                assert(decreases_to!(self@ => self@.types[j as int].1));
            }
            types.insert(self.types.entries[j].0.clone(), self.types.entries[j].1.clone());
            j = j + 1;
        }
        assert(self.types@.take(j as int) =~= self.types@);
        let r = TypeDef { seq, types, enums: self.enums.clone() };
        proof {
            lemma_type_model(r);
        }
        r
    }
}

impl Default for TypeDef {
    /// A type without fields.
    fn default() -> (r: TypeDef)
        ensures
            r@ == (TypeModel { seq: Seq::empty(), types: Seq::empty(), enums: Seq::empty() }),
    {
        let r = TypeDef { seq: Vec::new(), types: TypeMap::new(), enums: EnumMap::new() };
        proof {
            lemma_type_model(r);
            assert(field_models(r.seq@) =~= Seq::<FieldModel>::empty());
        }
        r
    }
}

impl Clone for KsySchema {
    fn clone(&self) -> (r: KsySchema)
        ensures
            r@ == self@,
    {
        KsySchema { root: self.root.clone(), endian: self.endian }
    }
}

// ---------------------------------------------------------------------------
// Primitive types
// ---------------------------------------------------------------------------

/// The primitive type of a name.
pub open spec fn prim_type(s: Seq<char>) -> Option<PrimType> {
    if s == "u1"@ {
        Some(PrimType::U1)
    } else if s == "u2"@ || s == "u2le"@ || s == "u2be"@ {
        Some(PrimType::U2)
    } else if s == "u4"@ || s == "u4le"@ || s == "u4be"@ {
        Some(PrimType::U4)
    } else if s == "u8"@ || s == "u8le"@ || s == "u8be"@ {
        Some(PrimType::U8)
    } else if s == "s1"@ {
        Some(PrimType::S1)
    } else if s == "s2"@ || s == "s2le"@ || s == "s2be"@ {
        Some(PrimType::S2)
    } else if s == "s4"@ || s == "s4le"@ || s == "s4be"@ {
        Some(PrimType::S4)
    } else if s == "s8"@ || s == "s8le"@ || s == "s8be"@ {
        Some(PrimType::S8)
    } else if s == "f4"@ || s == "f4le"@ || s == "f4be"@ {
        Some(PrimType::F4)
    } else if s == "f8"@ || s == "f8le"@ || s == "f8be"@ {
        Some(PrimType::F8)
    } else if s == "str"@ {
        Some(PrimType::Str)
    } else if s == "strz"@ {
        Some(PrimType::StrZ)
    } else {
        None
    }
}

/// The size in bytes, where the type has a fixed one.
pub open spec fn byte_size(p: PrimType) -> Option<usize> {
    match p {
        PrimType::U1 | PrimType::S1 => Some(1),
        PrimType::U2 | PrimType::S2 => Some(2),
        PrimType::U4 | PrimType::S4 | PrimType::F4 => Some(4),
        PrimType::U8 | PrimType::S8 | PrimType::F8 => Some(8),
        PrimType::Str | PrimType::StrZ => None,
    }
}

/// The text ends with `le` or `be`, with something before it.
pub open spec fn suffix_endian(s: Seq<char>) -> Option<Endian> {
    if s.len() > 2 && s[s.len() - 2] == 'l' && s[s.len() - 1] == 'e' {
        Some(Endian::Little)
    } else if s.len() > 2 && s[s.len() - 2] == 'b' && s[s.len() - 1] == 'e' {
        Some(Endian::Big)
    } else {
        None
    }
}

/// The byte order that a suffix of a primitive type asks for. In the name of
/// any other type `le` and `be` mean nothing.
pub open spec fn type_endian(s: Seq<char>) -> Option<Endian> {
    if prim_type(s) is Some {
        suffix_endian(s)
    } else {
        None
    }
}

fn is(s: &str, t: &str) -> (r: bool)
    ensures
        r == (s@ == t@),
{
    *s == *t
}

impl PrimType {
    /// The size in bytes, or `None` for strings.
    pub fn fixed_size(self) -> (r: Option<usize>)
        ensures
            r == byte_size(self),
    {
        match self {
            PrimType::U1 | PrimType::S1 => Some(1),
            PrimType::U2 | PrimType::S2 => Some(2),
            PrimType::U4 | PrimType::S4 | PrimType::F4 => Some(4),
            PrimType::U8 | PrimType::S8 | PrimType::F8 => Some(8),
            PrimType::Str | PrimType::StrZ => None,
        }
    }

    /// The primitive type of a name.
    pub fn parse(s: &str) -> (r: Option<PrimType>)
        ensures
            r == prim_type(s@),
    {
        if is(s, "u1") {
            Some(PrimType::U1)
        } else if is(s, "u2") || is(s, "u2le") || is(s, "u2be") {
            Some(PrimType::U2)
        } else if is(s, "u4") || is(s, "u4le") || is(s, "u4be") {
            Some(PrimType::U4)
        } else if is(s, "u8") || is(s, "u8le") || is(s, "u8be") {
            Some(PrimType::U8)
        } else if is(s, "s1") {
            Some(PrimType::S1)
        } else if is(s, "s2") || is(s, "s2le") || is(s, "s2be") {
            Some(PrimType::S2)
        } else if is(s, "s4") || is(s, "s4le") || is(s, "s4be") {
            Some(PrimType::S4)
        } else if is(s, "s8") || is(s, "s8le") || is(s, "s8be") {
            Some(PrimType::S8)
        } else if is(s, "f4") || is(s, "f4le") || is(s, "f4be") {
            Some(PrimType::F4)
        } else if is(s, "f8") || is(s, "f8le") || is(s, "f8be") {
            Some(PrimType::F8)
        } else if is(s, "str") {
            Some(PrimType::Str)
        } else if is(s, "strz") {
            Some(PrimType::StrZ)
        } else {
            None
        }
    }

    /// The byte order that a suffix of a primitive type asks for.
    pub fn endian_override(s: &str) -> (r: Option<Endian>)
        ensures
            r == type_endian(s@),
    {
        if PrimType::parse(s).is_none() {
            return None;
        }
        let c = chars_of(s);
        let n: usize = c.len();
        if n > 2 && c[n - 1] == 'e' {
            if c[n - 2] == 'l' {
                return Some(Endian::Little);
            }
            if c[n - 2] == 'b' {
                return Some(Endian::Big);
            }
        }
        None
    }
}

/// The name of a primitive number of more than one byte, without a suffix.
pub open spec fn takes_suffix(s: Seq<char>) -> bool {
    s == "u2"@ || s == "u4"@ || s == "u8"@ || s == "s2"@ || s == "s4"@ || s == "s8"@ || s == "f4"@
        || s == "f8"@
}

/// The suffixes `le` and `be` of a primitive number change its byte order and
/// nothing else.
pub proof fn law_suffixes_change_the_byte_order_only(s: Seq<char>)
    requires
        takes_suffix(s),
    ensures
        prim_type(s) is Some,
        type_endian(s) is None,
        prim_type(s + "le"@) == prim_type(s),
        type_endian(s + "le"@) == Some(Endian::Little),
        prim_type(s + "be"@) == prim_type(s),
        type_endian(s + "be"@) == Some(Endian::Big),
{
    reveal_strlit("u1");
    reveal_strlit("s1");
    reveal_strlit("le");
    reveal_strlit("be");
    reveal_strlit("u2");
    reveal_strlit("u2le");
    reveal_strlit("u2be");
    reveal_strlit("u4");
    reveal_strlit("u4le");
    reveal_strlit("u4be");
    reveal_strlit("u8");
    reveal_strlit("u8le");
    reveal_strlit("u8be");
    reveal_strlit("s2");
    reveal_strlit("s2le");
    reveal_strlit("s2be");
    reveal_strlit("s4");
    reveal_strlit("s4le");
    reveal_strlit("s4be");
    reveal_strlit("s8");
    reveal_strlit("s8le");
    reveal_strlit("s8be");
    reveal_strlit("f4");
    reveal_strlit("f4le");
    reveal_strlit("f4be");
    reveal_strlit("f8");
    reveal_strlit("f8le");
    reveal_strlit("f8be");
    let little = s + "le"@;
    let big = s + "be"@;
    assert(little =~= seq![s[0], s[1], 'l', 'e']);
    assert(big =~= seq![s[0], s[1], 'b', 'e']);
    if s == "u2"@ {
        assert(little =~= "u2le"@ && big =~= "u2be"@);
    } else if s == "u4"@ {
        assert(little =~= "u4le"@ && big =~= "u4be"@);
    } else if s == "u8"@ {
        assert(little =~= "u8le"@ && big =~= "u8be"@);
    } else if s == "s2"@ {
        assert(little =~= "s2le"@ && big =~= "s2be"@);
    } else if s == "s4"@ {
        assert(little =~= "s4le"@ && big =~= "s4be"@);
    } else if s == "s8"@ {
        assert(little =~= "s8le"@ && big =~= "s8be"@);
    } else if s == "f4"@ {
        assert(little =~= "f4le"@ && big =~= "f4be"@);
    } else {
        assert(little =~= "f8le"@ && big =~= "f8be"@);
    }
}

// ---------------------------------------------------------------------------
// Types of fields
// ---------------------------------------------------------------------------

/// The type that a name stands for.
pub open spec fn named_type(s: Seq<char>) -> TypeSpecModel {
    match prim_type(s) {
        Some(p) => TypeSpecModel::Primitive(p),
        None => TypeSpecModel::Named(s),
    }
}

/// What an expression given as a text stands for.
pub open spec fn case_of(r: Result<ExprModel, ErrorModel>) -> Result<CaseModel, ErrorModel> {
    match r {
        Ok(e) => Ok(CaseModel::Value(e)),
        Err(e) => Err(e),
    }
}

/// The case that a key stands for.
pub open spec fn case_key(k: YamlModel) -> Result<CaseModel, ErrorModel> {
    match k.node {
        NodeModel::Str(s) => if s == "_"@ {
            Ok(CaseModel::Default)
        } else {
            case_of(expr::parsed(s))
        },
        NodeModel::Number(Some(n)) => Ok(CaseModel::Value(ExprModel::Int(n))),
        NodeModel::Number(None) => Err(
            ErrorModel::Protocol("switch case key must be an integer"@),
        ),
        _ => Err(ErrorModel::Protocol("unsupported switch case key "@ + k.debug)),
    }
}

/// The type of a case.
pub open spec fn case_type(v: YamlModel) -> Result<TypeSpecModel, ErrorModel> {
    match v.node {
        NodeModel::Str(s) => Ok(named_type(s)),
        _ => Err(ErrorModel::Protocol("unsupported switch case value "@ + v.debug)),
    }
}

/// `done`, and after it the cases from `i` on.
pub open spec fn cases_from(
    m: Seq<(YamlModel, YamlModel)>,
    i: int,
    done: Seq<(CaseModel, TypeSpecModel)>,
) -> Result<Seq<(CaseModel, TypeSpecModel)>, ErrorModel>
    decreases m.len() - i,
{
    if i < 0 || i >= m.len() {
        Ok(done)
    } else {
        match (case_key(m[i].0), case_type(m[i].1)) {
            (Err(e), _) => Err(e),
            (_, Err(e)) => Err(e),
            (Ok(case), Ok(spec_type)) => cases_from(m, i + 1, done.push((case, spec_type))),
        }
    }
}

/// The string under a key, where there is one.
pub open spec fn text_under(m: Seq<(YamlModel, YamlModel)>, key: Seq<char>) -> Option<Seq<char>> {
    match yaml::under(m, key) {
        Some(y) => yaml::as_str(y),
        None => None,
    }
}

/// The mapping under a key, where there is one.
pub open spec fn mapping_under(m: Seq<(YamlModel, YamlModel)>, key: Seq<char>) -> Option<
    Seq<(YamlModel, YamlModel)>,
> {
    match yaml::under(m, key) {
        Some(y) => yaml::as_mapping(y),
        None => None,
    }
}

/// A switch type.
pub open spec fn switch_type(m: Seq<(YamlModel, YamlModel)>) -> Result<TypeSpecModel, ErrorModel> {
    match text_under(m, "switch-on"@) {
        None => Err(ErrorModel::Protocol("switch type is missing `switch-on`"@)),
        Some(s) => match expr::parsed(s) {
            Err(e) => Err(e),
            Ok(on) => match mapping_under(m, "cases"@) {
                None => Err(ErrorModel::Protocol("switch type is missing `cases` mapping"@)),
                Some(cases) => match cases_from(cases, 0, Seq::empty()) {
                    Err(e) => Err(e),
                    Ok(cases) => Ok(TypeSpecModel::Switch { on, cases }),
                },
            },
        },
    }
}

fn name_type(s: &str) -> (r: TypeSpec)
    ensures
        r@ == named_type(s@),
{
    let r = match PrimType::parse(s) {
        Some(p) => TypeSpec::Primitive(p),
        None => TypeSpec::Named(s.to_owned()),
    };
    proof {
        lemma_type_spec_model(r);
    }
    r
}

fn parse_case_key(key: &Yaml) -> (r: Result<SwitchCase, Error>)
    ensures
        error::outcome(r) == case_key(key@),
{
    proof {
        yaml::lemma_yaml_model(*key);
    }
    match &key.node {
        Node::Str(s) => if is(s.as_str(), "_") {
            Ok(SwitchCase::Default)
        } else {
            match expr::parse(s.as_str()) {
                Ok(e) => Ok(SwitchCase::Value(e)),
                Err(e) => Err(e),
            }
        },
        Node::Number(Some(n)) => Ok(SwitchCase::Value(Expr::Int(*n))),
        Node::Number(None) => Err(Error::Protocol("switch case key must be an integer".to_owned())),
        _ => Err(Error::Protocol(concat2("unsupported switch case key ", key.debug.as_str()))),
    }
}

fn parse_case_type(val: &Yaml) -> (r: Result<TypeSpec, Error>)
    ensures
        error::outcome(r) == case_type(val@),
{
    proof {
        yaml::lemma_yaml_model(*val);
    }
    match &val.node {
        Node::Str(s) => Ok(name_type(s.as_str())),
        _ => Err(Error::Protocol(concat2("unsupported switch case value ", val.debug.as_str()))),
    }
}

fn get_str<'a>(m: &'a Vec<(Yaml, Yaml)>, key: &str) -> (r: Option<&'a str>)
    ensures
        match (r, text_under(yaml::entry_models(m@), key@)) {
            (Some(a), Some(b)) => a@ == b,
            (None, None) => true,
            _ => false,
        },
{
    match get(m, key) {
        Some(y) => y.as_str(),
        None => None,
    }
}

fn get_mapping<'a>(m: &'a Vec<(Yaml, Yaml)>, key: &str) -> (r: Option<&'a Vec<(Yaml, Yaml)>>)
    ensures
        match (r, mapping_under(yaml::entry_models(m@), key@)) {
            (Some(a), Some(b)) => yaml::entry_models(a@) == b,
            (None, None) => true,
            _ => false,
        },
{
    match get(m, key) {
        Some(y) => y.as_mapping(),
        None => None,
    }
}

fn parse_switch(map: &Vec<(Yaml, Yaml)>) -> (r: Result<TypeSpec, Error>)
    ensures
        error::outcome(r) == switch_type(yaml::entry_models(map@)),
{
    let on = match get_str(map, "switch-on") {
        Some(s) => match expr::parse(s) {
            Ok(e) => e,
            Err(e) => return Err(e),
        },
        None => return Err(Error::Protocol("switch type is missing `switch-on`".to_owned())),
    };
    let cases_map = match get_mapping(map, "cases") {
        Some(m) => m,
        None => return Err(Error::Protocol("switch type is missing `cases` mapping".to_owned())),
    };
    let ghost m = yaml::entry_models(cases_map@);
    let mut cases: Vec<(SwitchCase, TypeSpec)> = Vec::new();
    let mut i: usize = 0;
    assert(case_models(cases@) =~= Seq::<(CaseModel, TypeSpecModel)>::empty());
    while i < cases_map.len()
        invariant
            m == yaml::entry_models(cases_map@),
            i <= cases_map@.len(),
            cases_from(m, 0, Seq::empty()) == cases_from(m, i as int, case_models(cases@)),
            mapping_under(yaml::entry_models(map@), "cases"@) == Some(m),
            text_under(yaml::entry_models(map@), "switch-on"@) is Some,
            expr::parsed(text_under(yaml::entry_models(map@), "switch-on"@)->0)
                == Ok::<ExprModel, ErrorModel>(on@),
        decreases cases_map@.len() - i,
    {
        assert(m[i as int] == (cases_map@[i as int].0@, cases_map@[i as int].1@));
        let case = match parse_case_key(&cases_map[i].0) {
            Ok(case) => case,
            Err(e) => return Err(e),
        };
        let type_spec = match parse_case_type(&cases_map[i].1) {
            Ok(t) => t,
            Err(e) => return Err(e),
        };
        let ghost before = case_models(cases@);
        let ghost added = (case@, type_spec@);
        cases.push((case, type_spec));
        assert(case_models(cases@) =~= before.push(added));
        i = i + 1;
    }
    let r = TypeSpec::Switch { on, cases };
    proof {
        lemma_type_spec_model(r);
    }
    Ok(r)
}

// ---------------------------------------------------------------------------
// Fields
// ---------------------------------------------------------------------------

/// An optional expression.
pub open spec fn some_expr(r: Result<ExprModel, ErrorModel>) -> Result<
    Option<ExprModel>,
    ErrorModel,
> {
    match r {
        Ok(e) => Ok(Some(e)),
        Err(e) => Err(e),
    }
}

/// An error about a field: what is wrong, and a quotation.
pub open spec fn field_error(id: Seq<char>, wrong: Seq<char>, quoted: Seq<char>) -> ErrorModel {
    ErrorModel::Protocol("field `"@ + id + wrong + quoted)
}

/// The type of a field, and the byte order that a suffix of it asks for where it
/// is primitive.
pub open spec fn field_type(m: Seq<(YamlModel, YamlModel)>, id: Seq<char>) -> Result<
    (Option<TypeSpecModel>, Option<Endian>),
    ErrorModel,
> {
    match yaml::under(m, "type"@) {
        None => Ok((None, None)),
        Some(y) => match y.node {
            NodeModel::Str(s) => Ok((Some(named_type(s)), type_endian(s))),
            NodeModel::Mapping(inner) => match switch_type(inner) {
                Ok(t) => Ok((Some(t), None)),
                Err(e) => Err(e),
            },
            _ => Err(field_error(id, "`: unsupported `type` value "@, y.debug)),
        },
    }
}

/// The size of a field.
pub open spec fn field_size(m: Seq<(YamlModel, YamlModel)>, id: Seq<char>) -> Result<
    Option<ExprModel>,
    ErrorModel,
> {
    match yaml::under(m, "size"@) {
        None => Ok(None),
        Some(y) => match y.node {
            NodeModel::Number(Some(n)) => Ok(Some(ExprModel::Int(n))),
            NodeModel::Number(None) => Err(
                field_error(id, "`: `size` must be an integer"@, Seq::empty()),
            ),
            NodeModel::Str(s) => some_expr(expr::parsed(s)),
            _ => Err(field_error(id, "`: unsupported `size` value "@, y.debug)),
        },
    }
}

/// The field takes all the bytes that are left.
pub open spec fn field_size_eos(m: Seq<(YamlModel, YamlModel)>) -> bool {
    match yaml::under(m, "size-eos"@) {
        Some(y) => yaml::as_bool(y) == Some(true),
        None => false,
    }
}

/// The condition of a field.
pub open spec fn field_if(m: Seq<(YamlModel, YamlModel)>, id: Seq<char>) -> Result<
    Option<ExprModel>,
    ErrorModel,
> {
    match yaml::under(m, "if"@) {
        None => Ok(None),
        Some(y) => match y.node {
            NodeModel::Str(s) => some_expr(expr::parsed(s)),
            _ => Err(field_error(id, "`: `if` must be a string expression, found "@, y.debug)),
        },
    }
}

/// How often a field is repeated, given by `repeat-expr`.
pub open spec fn repeat_expr(m: Seq<(YamlModel, YamlModel)>, id: Seq<char>) -> Result<
    ExprModel,
    ErrorModel,
> {
    let missing = Err(field_error(id, "`: `repeat: expr` needs `repeat-expr`"@, Seq::empty()));
    match yaml::under(m, "repeat-expr"@) {
        None => missing,
        Some(y) => match y.node {
            NodeModel::Str(s) => expr::parsed(s),
            NodeModel::Number(Some(n)) => Ok(ExprModel::Int(n)),
            NodeModel::Number(None) => Err(
                field_error(id, "`: `repeat-expr` must be an integer"@, Seq::empty()),
            ),
            _ => missing,
        },
    }
}

/// The repetition of a field.
pub open spec fn field_repeat(m: Seq<(YamlModel, YamlModel)>, id: Seq<char>) -> Result<
    Option<RepeatModel>,
    ErrorModel,
> {
    match text_under(m, "repeat"@) {
        None => Ok(None),
        Some(mode) => if mode == "expr"@ {
            match repeat_expr(m, id) {
                Ok(e) => Ok(Some(RepeatModel::Expr(e))),
                Err(e) => Err(e),
            }
        } else if mode == "until"@ {
            match text_under(m, "repeat-until"@) {
                None => Err(
                    field_error(id, "`: `repeat: until` needs `repeat-until`"@, Seq::empty()),
                ),
                Some(s) => match expr::parsed(s) {
                    Ok(e) => Ok(Some(RepeatModel::Until(e))),
                    Err(e) => Err(e),
                },
            }
        } else if mode == "eos"@ {
            Ok(Some(RepeatModel::Eos))
        } else {
            Err(field_error(id, "`: unknown `repeat` mode `"@, mode + "`"@))
        },
    }
}

/// `done`, and after it the bytes from element `i` on.
pub open spec fn bytes_from(items: Seq<YamlModel>, i: int, id: Seq<char>, done: Seq<u8>) -> Result<
    Seq<u8>,
    ErrorModel,
>
    decreases items.len() - i,
{
    if i < 0 || i >= items.len() {
        Ok(done)
    } else {
        match yaml::as_i64(items[i]) {
            Some(n) => if 0 <= n <= 255 {
                bytes_from(items, i + 1, id, done.push(n as u8))
            } else {
                Err(field_error(id, "`: `contents` list entries must be bytes 0-255"@, Seq::empty()))
            },
            None => Err(
                field_error(id, "`: `contents` list entries must be bytes 0-255"@, Seq::empty()),
            ),
        }
    }
}

/// The bytes that a field must have: those of a string, or a list.
pub open spec fn field_contents(m: Seq<(YamlModel, YamlModel)>, id: Seq<char>) -> Result<
    Option<Seq<u8>>,
    ErrorModel,
> {
    match yaml::under(m, "contents"@) {
        None => Ok(None),
        Some(y) => match y.node {
            NodeModel::Str(s) => Ok(Some(vstd::utf8::encode_utf8(s))),
            NodeModel::Sequence(items) => match bytes_from(items, 0, id, Seq::empty()) {
                Ok(b) => Ok(Some(b)),
                Err(e) => Err(e),
            },
            _ => Err(field_error(id, "`: unsupported `contents` value "@, y.debug)),
        },
    }
}

/// A field with all its properties. Where several are wrong, the error is about
/// the first in this order: type, size, condition, repetition, contents.
pub open spec fn field_of(m: Seq<(YamlModel, YamlModel)>, id: Seq<char>) -> Result<
    FieldModel,
    ErrorModel,
> {
    match field_type(m, id) {
        Err(e) => Err(e),
        Ok((type_spec, endian_override)) => match field_size(m, id) {
            Err(e) => Err(e),
            Ok(size) => match field_if(m, id) {
                Err(e) => Err(e),
                Ok(if_cond) => match field_repeat(m, id) {
                    Err(e) => Err(e),
                    Ok(repeat) => match field_contents(m, id) {
                        Err(e) => Err(e),
                        Ok(contents) => Ok(
                            FieldModel {
                                id,
                                type_spec,
                                size,
                                size_eos: field_size_eos(m),
                                repeat,
                                if_cond,
                                encoding: text_under(m, "encoding"@),
                                contents,
                                enum_name: text_under(m, "enum"@),
                                endian_override,
                            },
                        ),
                    },
                },
            },
        },
    }
}

/// The field that an entry of `seq` stands for.
pub open spec fn field(y: YamlModel) -> Result<FieldModel, ErrorModel> {
    match yaml::as_mapping(y) {
        None => Err(ErrorModel::Protocol("each `seq` entry must be a mapping"@)),
        Some(m) => match text_under(m, "id"@) {
            None => Err(ErrorModel::Protocol("`seq` entry is missing a string `id`"@)),
            Some(id) => field_of(m, id),
        },
    }
}

fn field_message(id: &str, wrong: &str, quoted: &str) -> (r: Error)
    ensures
        r@ == field_error(id@, wrong@, quoted@),
{
    Error::Protocol(concat4("field `", id, wrong, quoted))
}

pub(crate) fn field_fault(id: &str, wrong: &str) -> (r: Error)
    ensures
        r@ == field_error(id@, wrong@, Seq::empty()),
{
    let message = concat3("field `", id, wrong);
    assert(message@ =~= "field `"@ + id@ + wrong@ + Seq::<char>::empty());
    Error::Protocol(message)
}

fn parse_some(s: &str) -> (r: Result<Option<Expr>, Error>)
    ensures
        error::outcome_seen(r) == some_expr(expr::parsed(s@)),
{
    match expr::parse(s) {
        Ok(e) => Ok(Some(e)),
        Err(e) => Err(e),
    }
}

fn parse_field_type(map: &Vec<(Yaml, Yaml)>, id: &str) -> (r: Result<
    (Option<TypeSpec>, Option<Endian>),
    Error,
>)
    ensures
        match (r, field_type(yaml::entry_models(map@), id@)) {
            (Ok((t, e)), Ok((tm, em))) => error::seen(t) == tm && e == em,
            (Err(e), Err(m)) => e@ == m,
            _ => false,
        },
{
    let y = match get(map, "type") {
        Some(y) => y,
        None => return Ok((None, None)),
    };
    proof {
        yaml::lemma_yaml_model(*y);
    }
    match &y.node {
        Node::Str(s) => Ok((Some(name_type(s.as_str())), PrimType::endian_override(s.as_str()))),
        Node::Mapping(inner) => match parse_switch(inner) {
            Ok(t) => Ok((Some(t), None)),
            Err(e) => Err(e),
        },
        _ => Err(field_message(id, "`: unsupported `type` value ", y.debug.as_str())),
    }
}

fn parse_field_size(map: &Vec<(Yaml, Yaml)>, id: &str) -> (r: Result<Option<Expr>, Error>)
    ensures
        error::outcome_seen(r) == field_size(yaml::entry_models(map@), id@),
{
    let y = match get(map, "size") {
        Some(y) => y,
        None => return Ok(None),
    };
    proof {
        yaml::lemma_yaml_model(*y);
    }
    match &y.node {
        Node::Number(Some(n)) => Ok(Some(Expr::Int(*n))),
        Node::Number(None) => Err(field_fault(id, "`: `size` must be an integer")),
        Node::Str(s) => parse_some(s.as_str()),
        _ => Err(field_message(id, "`: unsupported `size` value ", y.debug.as_str())),
    }
}

fn parse_field_if(map: &Vec<(Yaml, Yaml)>, id: &str) -> (r: Result<Option<Expr>, Error>)
    ensures
        error::outcome_seen(r) == field_if(yaml::entry_models(map@), id@),
{
    let y = match get(map, "if") {
        Some(y) => y,
        None => return Ok(None),
    };
    proof {
        yaml::lemma_yaml_model(*y);
    }
    match &y.node {
        Node::Str(s) => parse_some(s.as_str()),
        _ => Err(
            field_message(id, "`: `if` must be a string expression, found ", y.debug.as_str()),
        ),
    }
}

fn parse_repeat_expr(map: &Vec<(Yaml, Yaml)>, id: &str) -> (r: Result<Expr, Error>)
    ensures
        error::outcome(r) == repeat_expr(yaml::entry_models(map@), id@),
{
    if let Some(y) = get(map, "repeat-expr") {
        proof {
            yaml::lemma_yaml_model(*y);
        }
        match &y.node {
            Node::Str(s) => {
                return expr::parse(s.as_str());
            },
            Node::Number(Some(n)) => {
                return Ok(Expr::Int(*n));
            },
            Node::Number(None) => {
                return Err(field_fault(id, "`: `repeat-expr` must be an integer"));
            },
            _ => {},
        }
    }
    Err(field_fault(id, "`: `repeat: expr` needs `repeat-expr`"))
}

fn parse_field_repeat(map: &Vec<(Yaml, Yaml)>, id: &str) -> (r: Result<Option<RepeatSpec>, Error>)
    ensures
        error::outcome_seen(r) == field_repeat(yaml::entry_models(map@), id@),
{
    let mode = match get_str(map, "repeat") {
        Some(mode) => mode,
        None => return Ok(None),
    };
    if is(mode, "expr") {
        match parse_repeat_expr(map, id) {
            Ok(e) => Ok(Some(RepeatSpec::Expr(e))),
            Err(e) => Err(e),
        }
    } else if is(mode, "until") {
        match get_str(map, "repeat-until") {
            Some(s) => match expr::parse(s) {
                Ok(e) => Ok(Some(RepeatSpec::Until(e))),
                Err(e) => Err(e),
            },
            None => Err(field_fault(id, "`: `repeat: until` needs `repeat-until`")),
        }
    } else if is(mode, "eos") {
        Ok(Some(RepeatSpec::Eos))
    } else {
        let quoted = concat2(mode, "`");
        Err(field_message(id, "`: unknown `repeat` mode `", quoted.as_str()))
    }
}

fn parse_bytes(items: &Vec<Yaml>, id: &str) -> (r: Result<Vec<u8>, Error>)
    ensures
        error::outcome(r) == bytes_from(yaml::item_models(items@), 0, id@, Seq::empty()),
{
    let ghost all = yaml::item_models(items@);
    let mut out: Vec<u8> = Vec::new();
    let mut i: usize = 0;
    assert(out@ =~= Seq::<u8>::empty());
    while i < items.len()
        invariant
            all == yaml::item_models(items@),
            i <= items@.len(),
            bytes_from(all, 0, id@, Seq::empty()) == bytes_from(all, i as int, id@, out@),
        decreases items@.len() - i,
    {
        assert(all[i as int] == items@[i as int]@);
        let byte: u8 = match items[i].as_i64() {
            Some(n) => if 0 <= n && n <= 255 {
                n as u8
            } else {
                return Err(field_fault(id, "`: `contents` list entries must be bytes 0-255"));
            },
            None => return Err(
                field_fault(id, "`: `contents` list entries must be bytes 0-255"),
            ),
        };
        out.push(byte);
        i = i + 1;
    }
    Ok(out)
}

fn parse_field_contents(map: &Vec<(Yaml, Yaml)>, id: &str) -> (r: Result<Option<Vec<u8>>, Error>)
    ensures
        error::outcome_seen(r) == field_contents(yaml::entry_models(map@), id@),
{
    let y = match get(map, "contents") {
        Some(y) => y,
        None => return Ok(None),
    };
    proof {
        yaml::lemma_yaml_model(*y);
    }
    match &y.node {
        Node::Str(s) => Ok(Some(bytes_of(s.as_str()))),
        Node::Sequence(items) => match parse_bytes(items, id) {
            Ok(b) => Ok(Some(b)),
            Err(e) => Err(e),
        },
        _ => Err(field_message(id, "`: unsupported `contents` value ", y.debug.as_str())),
    }
}

/// The UTF-8 form of a text.
fn bytes_of(s: &str) -> (r: Vec<u8>)
    ensures
        r@ == vstd::utf8::encode_utf8(s@),
{
    vstd::slice::slice_to_vec(s.as_bytes())
}

fn owned(s: Option<&str>) -> (r: Option<String>)
    ensures
        match (r, s) {
            (Some(a), Some(b)) => a@ == b@,
            (None, None) => true,
            _ => false,
        },
{
    match s {
        Some(s) => Some(s.to_owned()),
        None => None,
    }
}

fn parse_field(value: &Yaml) -> (r: Result<FieldDef, Error>)
    ensures
        error::outcome(r) == field(value@),
{
    let map = match value.as_mapping() {
        Some(m) => m,
        None => return Err(Error::Protocol("each `seq` entry must be a mapping".to_owned())),
    };
    let id = match get_str(map, "id") {
        Some(s) => s,
        None => return Err(Error::Protocol("`seq` entry is missing a string `id`".to_owned())),
    };
    let (type_spec, endian_override) = match parse_field_type(map, id) {
        Ok(pair) => pair,
        Err(e) => return Err(e),
    };
    let size = match parse_field_size(map, id) {
        Ok(size) => size,
        Err(e) => return Err(e),
    };
    let size_eos = match get(map, "size-eos") {
        Some(y) => match y.as_bool() {
            Some(b) => b,
            None => false,
        },
        None => false,
    };
    let if_cond = match parse_field_if(map, id) {
        Ok(cond) => cond,
        Err(e) => return Err(e),
    };
    let repeat = match parse_field_repeat(map, id) {
        Ok(repeat) => repeat,
        Err(e) => return Err(e),
    };
    let encoding = owned(get_str(map, "encoding"));
    let contents = match parse_field_contents(map, id) {
        Ok(contents) => contents,
        Err(e) => return Err(e),
    };
    let enum_name = owned(get_str(map, "enum"));
    Ok(
        FieldDef {
            id: id.to_owned(),
            type_spec,
            size,
            size_eos,
            repeat,
            if_cond,
            encoding,
            contents,
            enum_name,
            endian_override,
        },
    )
}

// ---------------------------------------------------------------------------
// Enumerations
// ---------------------------------------------------------------------------

/// `done`, and over it the symbols from entry `i` on.
pub open spec fn symbols_from(
    m: Seq<(YamlModel, YamlModel)>,
    i: int,
    name: Seq<char>,
    done: Map<i64, Seq<char>>,
) -> Result<Map<i64, Seq<char>>, ErrorModel>
    decreases m.len() - i,
{
    if i < 0 || i >= m.len() {
        Ok(done)
    } else {
        match yaml::as_i64(m[i].0) {
            None => Err(
                ErrorModel::Protocol("enum `"@ + name + "` value must be an integer"@),
            ),
            Some(value) => match yaml::as_str(m[i].1) {
                None => Err(
                    ErrorModel::Protocol("enum `"@ + name + "` symbol must be a string"@),
                ),
                Some(symbol) => symbols_from(m, i + 1, name, done.insert(value, symbol)),
            },
        }
    }
}

/// `done`, and over it the enumerations from entry `i` on.
pub open spec fn enums_from(
    m: Seq<(YamlModel, YamlModel)>,
    i: int,
    done: Seq<(Seq<char>, Map<i64, Seq<char>>)>,
) -> Result<Seq<(Seq<char>, Map<i64, Seq<char>>)>, ErrorModel>
    decreases m.len() - i,
{
    if i < 0 || i >= m.len() {
        Ok(done)
    } else {
        match yaml::as_str(m[i].0) {
            None => Err(ErrorModel::Protocol("enum name must be a string"@)),
            Some(name) => match yaml::as_mapping(m[i].1) {
                None => Err(ErrorModel::Protocol("enum `"@ + name + "` must be a mapping"@)),
                Some(values) => match symbols_from(values, 0, name, Map::empty()) {
                    Err(e) => Err(e),
                    Ok(symbols) => enums_from(m, i + 1, named::put_entry(done, name, symbols)),
                },
            },
        }
    }
}

/// The enumerations of a type.
pub open spec fn enum_map(m: Seq<(YamlModel, YamlModel)>) -> Result<
    Seq<(Seq<char>, Map<i64, Seq<char>>)>,
    ErrorModel,
> {
    match yaml::under(m, "enums"@) {
        None => Ok(Seq::empty()),
        Some(y) => match y.node {
            NodeModel::Mapping(entries) => enums_from(entries, 0, Seq::empty()),
            _ => Err(ErrorModel::Protocol("`enums` must be a YAML mapping"@)),
        },
    }
}

fn parse_symbols(values: &Vec<(Yaml, Yaml)>, name: &str) -> (r: Result<HashMap<i64, String>, Error>)
    ensures
        match (r, symbols_from(yaml::entry_models(values@), 0, name@, Map::empty())) {
            (Ok(a), Ok(b)) => symbol_model(a) == b,
            (Err(e), Err(m)) => e@ == m,
            _ => false,
        },
{
    broadcast use vstd::std_specs::hash::group_hash_axioms;

    let ghost m = yaml::entry_models(values@);
    let mut symbols: HashMap<i64, String> = HashMap::new();
    let mut i: usize = 0;
    assert(symbol_model(symbols) =~= Map::<i64, Seq<char>>::empty());
    while i < values.len()
        invariant
            m == yaml::entry_models(values@),
            i <= values@.len(),
            symbols_from(m, 0, name@, Map::empty()) == symbols_from(
                m,
                i as int,
                name@,
                symbol_model(symbols),
            ),
        decreases values@.len() - i,
    {
        assert(m[i as int] == (values@[i as int].0@, values@[i as int].1@));
        let value: i64 = match values[i].0.as_i64() {
            Some(n) => n,
            None => return Err(
                Error::Protocol(concat3("enum `", name, "` value must be an integer")),
            ),
        };
        let symbol = match values[i].1.as_str() {
            Some(s) => s.to_owned(),
            None => return Err(
                Error::Protocol(concat3("enum `", name, "` symbol must be a string")),
            ),
        };
        let ghost before = symbol_model(symbols);
        let ghost added = symbol@;
        symbols.insert(value, symbol);
        assert(symbol_model(symbols) =~= before.insert(value, added));
        i = i + 1;
    }
    Ok(symbols)
}

fn parse_enums(map: &Vec<(Yaml, Yaml)>) -> (r: Result<EnumMap, Error>)
    ensures
        error::outcome(r) == enum_map(yaml::entry_models(map@)),
{
    let y = match get(map, "enums") {
        Some(y) => y,
        None => return Ok(EnumMap::new()),
    };
    proof {
        yaml::lemma_yaml_model(*y);
    }
    let entries = match &y.node {
        Node::Mapping(entries) => entries,
        _ => return Err(Error::Protocol("`enums` must be a YAML mapping".to_owned())),
    };
    let ghost m = yaml::entry_models(entries@);
    let mut out = EnumMap::new();
    let mut i: usize = 0;
    while i < entries.len()
        invariant
            m == yaml::entry_models(entries@),
            i <= entries@.len(),
            enums_from(m, 0, Seq::empty()) == enums_from(m, i as int, out@),
            enum_map(yaml::entry_models(map@)) == enums_from(m, 0, Seq::empty()),
        decreases entries@.len() - i,
    {
        assert(m[i as int] == (entries@[i as int].0@, entries@[i as int].1@));
        let name = match entries[i].0.as_str() {
            Some(s) => s,
            None => return Err(Error::Protocol("enum name must be a string".to_owned())),
        };
        let values = match entries[i].1.as_mapping() {
            Some(values) => values,
            None => return Err(Error::Protocol(concat3("enum `", name, "` must be a mapping"))),
        };
        match parse_symbols(values, name) {
            Ok(symbols) => {
                out.insert(name.to_owned(), symbols);
            },
            Err(e) => {
                return Err(e);
            },
        }
        i = i + 1;
    }
    Ok(out)
}

// ---------------------------------------------------------------------------
// Types and documents
// ---------------------------------------------------------------------------

/// `done`, and after it the fields from entry `i` on.
pub open spec fn fields_from(items: Seq<YamlModel>, i: int, done: Seq<FieldModel>) -> Result<
    Seq<FieldModel>,
    ErrorModel,
>
    decreases items.len() - i,
{
    if i < 0 || i >= items.len() {
        Ok(done)
    } else {
        match field(items[i]) {
            Err(e) => Err(e),
            Ok(f) => fields_from(items, i + 1, done.push(f)),
        }
    }
}

/// The fields of a type, in the order of the document.
pub open spec fn field_list(m: Seq<(YamlModel, YamlModel)>) -> Result<Seq<FieldModel>, ErrorModel> {
    match yaml::under(m, "seq"@) {
        None => Ok(Seq::empty()),
        Some(y) => match y.node {
            NodeModel::Sequence(items) => fields_from(items, 0, Seq::empty()),
            _ => Err(ErrorModel::Protocol("`seq` must be a YAML sequence"@)),
        },
    }
}

/// The mapping under the tags of a node is a part of the node.
pub proof fn lemma_as_mapping_smaller(y: YamlModel)
    ensures
        match yaml::as_mapping(y) {
            Some(m) => decreases_to!(y => m),
            None => true,
        },
    decreases y,
{
    match y.node {
        NodeModel::Tagged(inner) => {
            lemma_as_mapping_smaller(*inner);
            assert(decreases_to!(y => *inner));
        },
        NodeModel::Mapping(m) => {
            assert(decreases_to!(y => m));
        },
        _ => {},
    }
}

/// What a mapping has under a key is a part of it.
pub proof fn lemma_under_smaller(m: Seq<(YamlModel, YamlModel)>, key: Seq<char>)
    ensures
        match yaml::under(m, key) {
            Some(y) => match y.node {
                NodeModel::Mapping(inner) => decreases_to!(m => inner),
                _ => true,
            },
            None => true,
        },
{
    yaml::lemma_under(m, key);
    if let Some(y) = yaml::under(m, key) {
        let i = choose|i: int| 0 <= i < m.len() && (#[trigger] m[i]).1 == y;
        assert(decreases_to!(m => m[i].1));
    }
}

/// A type: its fields, its types and its enumerations. Where several are wrong,
/// the error is about the first of these.
pub open spec fn type_body(m: Seq<(YamlModel, YamlModel)>) -> Result<TypeModel, ErrorModel>
    decreases m, 0int,
{
    match field_list(m) {
        Err(e) => Err(e),
        Ok(seq) => {
            let types = match yaml::under(m, "types"@) {
                None => Ok(Seq::empty()),
                Some(y) => match y.node {
                    NodeModel::Mapping(entries) => {
                        proof {
                            lemma_under_smaller(m, "types"@);
                        }
                        types_from(entries, 0, Seq::empty())
                    },
                    _ => Err(ErrorModel::Protocol("`types` must be a YAML mapping"@)),
                },
            };
            match types {
                Err(e) => Err(e),
                Ok(types) => match enum_map(m) {
                    Err(e) => Err(e),
                    Ok(enums) => Ok(TypeModel { seq, types, enums }),
                },
            }
        },
    }
}

/// `done`, and over it the types from entry `i` on.
pub open spec fn types_from(
    m: Seq<(YamlModel, YamlModel)>,
    i: int,
    done: Seq<(Seq<char>, TypeModel)>,
) -> Result<Seq<(Seq<char>, TypeModel)>, ErrorModel>
    decreases m, m.len() - i,
{
    if i < 0 || i >= m.len() {
        Ok(done)
    } else {
        match yaml::as_str(m[i].0) {
            None => Err(ErrorModel::Protocol("type name must be a string"@)),
            Some(name) => match yaml::as_mapping(m[i].1) {
                None => Err(ErrorModel::Protocol("type `"@ + name + "` must be a mapping"@)),
                Some(def) => {
                    proof {
                        lemma_as_mapping_smaller(m[i].1);
                        assert(decreases_to!(m => m[i].1));
                    }
                    match type_body(def) {
                        Err(e) => Err(e),
                        Ok(t) => types_from(m, i + 1, named::put_entry(done, name, t)),
                    }
                },
            },
        }
    }
}

/// The byte order of a document: `meta` may give it, little-endian is the
/// default.
pub open spec fn document_endian(m: Seq<(YamlModel, YamlModel)>) -> Result<Endian, ErrorModel> {
    let given = match mapping_under(m, "meta"@) {
        Some(meta) => text_under(meta, "endian"@),
        None => None,
    };
    match given {
        None => Ok(Endian::Little),
        Some(s) => if s == "be"@ {
            Ok(Endian::Big)
        } else if s == "le"@ {
            Ok(Endian::Little)
        } else {
            Err(ErrorModel::Protocol("unknown endian `"@ + s + "`"@))
        },
    }
}

/// The schema that a document stands for.
pub open spec fn document(y: YamlModel) -> Result<SchemaModel, ErrorModel> {
    match yaml::as_mapping(y) {
        None => Err(ErrorModel::Protocol("KSY document must be a YAML mapping"@)),
        Some(m) => match document_endian(m) {
            Err(e) => Err(e),
            Ok(endian) => match type_body(m) {
                Err(e) => Err(e),
                Ok(root) => Ok(SchemaModel { root, endian }),
            },
        },
    }
}

/// The schema that the text of a document stands for.
pub open spec fn schema_of(source: Seq<char>) -> Result<SchemaModel, ErrorModel> {
    match yaml::yaml_read(source) {
        Err(m) => Err(ErrorModel::Protocol("invalid YAML: "@ + m)),
        Ok(y) => document(y),
    }
}

fn parse_fields(map: &Vec<(Yaml, Yaml)>) -> (r: Result<Vec<FieldDef>, Error>)
    ensures
        match (r, field_list(yaml::entry_models(map@))) {
            (Ok(a), Ok(b)) => field_models(a@) == b,
            (Err(e), Err(m)) => e@ == m,
            _ => false,
        },
{
    let mut out: Vec<FieldDef> = Vec::new();
    assert(field_models(out@) =~= Seq::<FieldModel>::empty());
    let y = match get(map, "seq") {
        Some(y) => y,
        None => return Ok(out),
    };
    proof {
        yaml::lemma_yaml_model(*y);
    }
    let items = match &y.node {
        Node::Sequence(items) => items,
        _ => return Err(Error::Protocol("`seq` must be a YAML sequence".to_owned())),
    };
    let ghost all = yaml::item_models(items@);
    let mut i: usize = 0;
    while i < items.len()
        invariant
            all == yaml::item_models(items@),
            i <= items@.len(),
            fields_from(all, 0, Seq::empty()) == fields_from(all, i as int, field_models(out@)),
            field_list(yaml::entry_models(map@)) == fields_from(all, 0, Seq::empty()),
        decreases items@.len() - i,
    {
        assert(all[i as int] == items@[i as int]@);
        match parse_field(&items[i]) {
            Ok(f) => {
                let ghost before = field_models(out@);
                let ghost added = f@;
                out.push(f);
                assert(field_models(out@) =~= before.push(added));
            },
            Err(e) => {
                return Err(e);
            },
        }
        i = i + 1;
    }
    Ok(out)
}

fn parse_type_body(map: &Vec<(Yaml, Yaml)>) -> (r: Result<TypeDef, Error>)
    ensures
        error::outcome(r) == type_body(yaml::entry_models(map@)),
    decreases yaml::entry_models(map@), 0int,
{
    let ghost m = yaml::entry_models(map@);
    let seq = match parse_fields(map) {
        Ok(seq) => seq,
        Err(e) => return Err(e),
    };
    let types = match get(map, "types") {
        Some(y) => {
            proof {
                yaml::lemma_yaml_model(*y);
                lemma_under_smaller(m, "types"@);
            }
            match &y.node {
                Node::Mapping(entries) => match parse_types(entries) {
                    Ok(types) => types,
                    Err(e) => return Err(e),
                },
                _ => return Err(Error::Protocol("`types` must be a YAML mapping".to_owned())),
            }
        },
        None => TypeMap::new(),
    };
    let enums = match parse_enums(map) {
        Ok(enums) => enums,
        Err(e) => return Err(e),
    };
    let r = TypeDef { seq, types, enums };
    proof {
        lemma_type_model(r);
    }
    Ok(r)
}

fn parse_types(entries: &Vec<(Yaml, Yaml)>) -> (r: Result<TypeMap, Error>)
    ensures
        error::outcome(r) == types_from(yaml::entry_models(entries@), 0, Seq::empty()),
    decreases yaml::entry_models(entries@), 1int,
{
    let ghost m = yaml::entry_models(entries@);
    let mut out = TypeMap::new();
    let mut i: usize = 0;
    while i < entries.len()
        invariant
            m == yaml::entry_models(entries@),
            i <= entries@.len(),
            types_from(m, 0, Seq::empty()) == types_from(m, i as int, out@),
        decreases entries@.len() - i,
    {
        assert(m[i as int] == (entries@[i as int].0@, entries@[i as int].1@));
        let name = match entries[i].0.as_str() {
            Some(s) => s,
            None => return Err(Error::Protocol("type name must be a string".to_owned())),
        };
        let def = match entries[i].1.as_mapping() {
            Some(def) => def,
            None => return Err(Error::Protocol(concat3("type `", name, "` must be a mapping"))),
        };
        proof {
            lemma_as_mapping_smaller(m[i as int].1);
            assert(decreases_to!(m => m[i as int].1));
        }
        match parse_type_body(def) {
            Ok(t) => {
                out.insert(name.to_owned(), t);
            },
            Err(e) => {
                return Err(e);
            },
        }
        i = i + 1;
    }
    Ok(out)
}

fn parse_endian(map: &Vec<(Yaml, Yaml)>) -> (r: Result<Endian, Error>)
    ensures
        match (r, document_endian(yaml::entry_models(map@))) {
            (Ok(a), Ok(b)) => a == b,
            (Err(e), Err(m)) => e@ == m,
            _ => false,
        },
{
    let given = match get_mapping(map, "meta") {
        Some(meta) => get_str(meta, "endian"),
        None => None,
    };
    match given {
        None => Ok(Endian::Little),
        Some(s) => if is(s, "be") {
            Ok(Endian::Big)
        } else if is(s, "le") {
            Ok(Endian::Little)
        } else {
            Err(Error::Protocol(concat3("unknown endian `", s, "`")))
        },
    }
}

/// Reads the schema out of a document.
pub fn parse_document(doc: &Yaml) -> (r: Result<KsySchema, Error>)
    ensures
        error::outcome(r) == document(doc@),
{
    let mapping = match doc.as_mapping() {
        Some(m) => m,
        None => return Err(Error::Protocol("KSY document must be a YAML mapping".to_owned())),
    };
    let endian = match parse_endian(mapping) {
        Ok(endian) => endian,
        Err(e) => return Err(e),
    };
    match parse_type_body(mapping) {
        Ok(root) => Ok(KsySchema { root, endian }),
        Err(e) => Err(e),
    }
}

/// Parses the text of a schema.
pub fn parse(source: &str) -> (r: Result<KsySchema, Error>)
    ensures
        error::outcome(r) == schema_of(source@),
{
    match read(source) {
        Ok(doc) => parse_document(&doc),
        Err(m) => Err(Error::Protocol(concat2("invalid YAML: ", m.as_str()))),
    }
}

} // verus!
