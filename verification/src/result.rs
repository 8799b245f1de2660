//! Typed values of decoded fields.
//!
//! A value is kept in its natural type and turned into text only on request.
//! Floating-point numbers are kept by their bit patterns; their texts come
//! from the caller, as a table (see [`FloatText`]).
use indexmap::IndexMap;
use vstd::prelude::*;

use crate::index::{index_get, index_insert, index_name, index_new};
#[allow(unused_imports)]
use crate::{index, named, text};

verus! {

/// A decoded value.
#[derive(Debug)]
pub enum Value {
    Integer(i64),
    UnsignedInteger(u64),
    /// A double-precision number, by its IEEE 754 bit pattern.
    Float(u64),
    Boolean(bool),
    Bytes(Vec<u8>),
    Str(String),
    Array(Vec<Value>),
    /// A nested struct, with its fields in the order of their declaration.
    Struct(Fields),
    Null,
}

/// Named values in the order in which their names were first inserted.
#[derive(Debug)]
pub struct Fields {
    index: IndexMap<String, usize>,
    values: Vec<Value>,
}

/// The mathematical counterpart of [`Value`].
pub enum ValueModel {
    Integer(i64),
    UnsignedInteger(u64),
    Float(u64),
    Boolean(bool),
    Bytes(Seq<u8>),
    Str(Seq<char>),
    Array(Seq<ValueModel>),
    Struct(Seq<(Seq<char>, ValueModel)>),
    Null,
}

/// What a value stands for.
pub closed spec fn value_model(v: Value) -> ValueModel
    decreases v,
{
    match v {
        Value::Integer(n) => ValueModel::Integer(n),
        Value::UnsignedInteger(n) => ValueModel::UnsignedInteger(n),
        Value::Float(b) => ValueModel::Float(b),
        Value::Boolean(b) => ValueModel::Boolean(b),
        Value::Bytes(b) => ValueModel::Bytes(b@),
        Value::Str(s) => ValueModel::Str(s@),
        Value::Array(a) => ValueModel::Array(
            Seq::new(
                a@.len(),
                |i: int|
                    if 0 <= i < a@.len() {
                        value_model(a@[i])
                    } else {
                        ValueModel::Null
                    },
            ),
        ),
        Value::Struct(f) => ValueModel::Struct(
            Seq::new(
                f.values@.len(),
                |i: int|
                    if 0 <= i < f.values@.len() {
                        (index::index_entries(f.index)[i].0, value_model(f.values@[i]))
                    } else {
                        (Seq::empty(), ValueModel::Null)
                    },
            ),
        ),
        Value::Null => ValueModel::Null,
    }
}

impl View for Value {
    type V = ValueModel;

    open spec fn view(&self) -> ValueModel {
        value_model(*self)
    }
}

pub open spec fn value_models(a: Seq<Value>) -> Seq<ValueModel> {
    Seq::new(a.len(), |i: int| a[i]@)
}

impl View for Fields {
    type V = Seq<(Seq<char>, ValueModel)>;

    closed spec fn view(&self) -> Seq<(Seq<char>, ValueModel)> {
        Seq::new(
            self.values@.len(),
            |i: int| (index::index_entries(self.index)[i].0, self.values@[i]@),
        )
    }
}

pub proof fn lemma_value_model(v: Value)
    ensures
        v@ == (match v {
            Value::Integer(n) => ValueModel::Integer(n),
            Value::UnsignedInteger(n) => ValueModel::UnsignedInteger(n),
            Value::Float(b) => ValueModel::Float(b),
            Value::Boolean(b) => ValueModel::Boolean(b),
            Value::Bytes(b) => ValueModel::Bytes(b@),
            Value::Str(s) => ValueModel::Str(s@),
            Value::Array(a) => ValueModel::Array(value_models(a@)),
            Value::Struct(f) => ValueModel::Struct(f@),
            Value::Null => ValueModel::Null,
        }),
{
    match v {
        Value::Array(a) => {
            assert(v@->Array_0 =~= value_models(a@));
        },
        Value::Struct(f) => {
            assert(v@->Struct_0 =~= f@);
        },
        _ => {},
    }
}

impl Fields {
    /// Each name is indexed by the place of its value, and none occurs twice.
    #[verifier::type_invariant]
    spec fn indexed(self) -> bool {
        let entries = index::index_entries(self.index);
        &&& entries.len() == self.values@.len()
        &&& forall|i: int| 0 <= i < entries.len() ==> (#[trigger] entries[i]).1 == i
        &&& named::distinct_names(entries)
    }

    pub fn new() -> (r: Fields)
        ensures
            r@ == Seq::<(Seq<char>, ValueModel)>::empty(),
    {
        let r = Fields { index: index_new(), values: Vec::new() };
        assert(r@ =~= Seq::<(Seq<char>, ValueModel)>::empty());
        r
    }

    fn with(self, name: String, value: Value) -> (r: Fields)
        ensures
            r@ == named::put_entry(self@, name@, value@),
            named::distinct_names(r@),
    {
        proof {
            use_type_invariant(&self);
        }
        let ghost before = self@;
        let ghost entries = index::index_entries(self.index);
        proof {
            assert forall|i: int, j: int| 0 <= i < j < before.len() implies (#[trigger] before[i]).0
                != (#[trigger] before[j]).0 by {
                assert(entries[i].0 != entries[j].0);
            }
            named::lemma_put_distinct(before, name@, value@);
        }
        let Fields { mut index, mut values } = self;
        let found = index_get(&index, name.as_str());
        proof {
            named::lemma_entry_index(entries, name@);
            named::lemma_entry_index_same_names(entries, before, name@);
        }
        match found {
            Some(i) => {
                values.set(i, value);
                let r = Fields { index, values };
                assert(r@ =~= named::put_entry(before, name@, value@));
                r
            },
            None => {
                let position: usize = values.len();
                index_insert(&mut index, name, position);
                values.push(value);
                proof {
                    named::lemma_put_distinct(entries, name@, position);
                }
                let r = Fields { index, values };
                assert(r@ =~= named::put_entry(before, name@, value@));
                r
            },
        }
    }

    /// Puts `value` under `name`: over the old value where there is one, else
    /// after all the others.
    pub fn insert(&mut self, name: String, value: Value)
        ensures
            final(self)@ == named::put_entry(old(self)@, name@, value@),
            named::distinct_names(final(self)@),
    {
        let mut taken = Fields::new();
        std::mem::swap(self, &mut taken);
        *self = taken.with(name, value);
    }

    pub fn get(&self, name: &str) -> (r: Option<&Value>)
        ensures
            match (r, named::find_entry(self@, name@)) {
                (Some(v), Some(m)) => v@ == m,
                (None, None) => true,
                _ => false,
            },
    {
        proof {
            use_type_invariant(self);
            let entries = index::index_entries(self.index);
            named::lemma_entry_index(entries, name@);
            named::lemma_entry_index_same_names(entries, self@, name@);
        }
        match index_get(&self.index, name) {
            Some(i) => Some(&self.values[i]),
            None => None,
        }
    }

    pub fn contains_key(&self, name: &str) -> (r: bool)
        ensures
            r == (named::find_entry(self@, name@) is Some),
    {
        self.get(name).is_some()
    }

    pub fn len(&self) -> (r: usize)
        ensures
            r == self@.len(),
    {
        self.values.len()
    }

    /// The name at a place in the order of insertion.
    pub fn name_at(&self, i: usize) -> (r: &String)
        requires
            i < self@.len(),
        ensures
            r@ == self@[i as int].0,
    {
        proof {
            use_type_invariant(self);
        }
        index_name(&self.index, i)
    }

    /// The value at a place in the order of insertion.
    pub fn value_at(&self, i: usize) -> (r: &Value)
        requires
            i < self@.len(),
        ensures
            r@ == self@[i as int].1,
    {
        &self.values[i]
    }
}

impl Clone for Value {
    fn clone(&self) -> (r: Value)
        ensures
            r@ == self@,
        decreases self@,
    {
        proof {
            lemma_value_model(*self);
        }
        match self {
            Value::Integer(n) => Value::Integer(*n),
            Value::UnsignedInteger(n) => Value::UnsignedInteger(*n),
            Value::Float(b) => Value::Float(*b),
            Value::Boolean(b) => Value::Boolean(*b),
            Value::Bytes(b) => {
                let r = Value::Bytes(b.clone());
                proof {
                    lemma_value_model(r);
                    assert(r->Bytes_0@ =~= b@);
                }
                r
            },
            Value::Str(s) => Value::Str(s.clone()),
            Value::Array(a) => {
                let mut out: Vec<Value> = Vec::new();
                let mut i: usize = 0;
                while i < a.len()
                    invariant
                        self@ == ValueModel::Array(value_models(a@)),
                        i <= a@.len(),
                        out@.len() == i,
                        forall|k: int| 0 <= k < i ==> (#[trigger] out@[k])@ == a@[k]@,
                    decreases a@.len() - i,
                {
                    assert(self@->Array_0[i as int] == a@[i as int]@);
                    out.push(a[i].clone());
                    i = i + 1;
                }
                let r = Value::Array(out);
                proof {
                    lemma_value_model(r);
                    assert(value_models(r->Array_0@) =~= value_models(a@));
                }
                r
            },
            Value::Struct(f) => {
                let mut out = Fields::new();
                let mut i: usize = 0;
                while i < f.len()
                    invariant
                        self@ == ValueModel::Struct(f@),
                        i <= f@.len(),
                        out@ =~= f@.take(i as int),
                    decreases f@.len() - i,
                {
                    proof {
                        use_type_invariant(f);
                        let entries = index::index_entries(f.index);
                        named::lemma_entry_index(out@, f@[i as int].0);
                        assert forall|k: int| 0 <= k < out@.len() implies (#[trigger] out@[k]).0
                            != f@[i as int].0 by {
                            assert(entries[k].0 != entries[i as int].0);
                            assert(out@[k] == f@[k]);
                        }
                        assert(self@->Struct_0[i as int].1 == f@[i as int].1);
                    }
                    out.insert(f.name_at(i).clone(), f.value_at(i).clone());
                    i = i + 1;
                }
                let r = Value::Struct(out);
                proof {
                    lemma_value_model(r);
                    assert(f@.take(i as int) =~= f@);
                }
                r
            },
            Value::Null => Value::Null,
        }
    }
}

impl Clone for Fields {
    fn clone(&self) -> (r: Fields)
        ensures
            r@ == self@,
    {
        let mut out = Fields::new();
        let mut i: usize = 0;
        while i < self.len()
            invariant
                i <= self@.len(),
                out@ =~= self@.take(i as int),
            decreases self@.len() - i,
        {
            proof {
                use_type_invariant(self);
                let entries = index::index_entries(self.index);
                named::lemma_entry_index(out@, self@[i as int].0);
                assert forall|k: int| 0 <= k < out@.len() implies (#[trigger] out@[k]).0
                    != self@[i as int].0 by {
                    assert(entries[k].0 != entries[i as int].0);
                    assert(out@[k] == self@[k]);
                }
            }
            out.insert(self.name_at(i).clone(), self.value_at(i).clone());
            i = i + 1;
        }
        assert(self@.take(i as int) =~= self@);
        out
    }
}

// ---------------------------------------------------------------------------
// Equality
// ---------------------------------------------------------------------------

/// The bit pattern stands for no number.
pub open spec fn is_nan(bits: u64) -> bool {
    bits % 0x8000_0000_0000_0000 > 0x7ff0_0000_0000_0000
}

/// The bit pattern stands for zero, of either sign.
pub open spec fn is_zero(bits: u64) -> bool {
    bits % 0x8000_0000_0000_0000 == 0
}

/// IEEE 754 equality: what is not a number equals nothing, the two zeros are
/// equal, and all else goes by the bit pattern.
pub open spec fn floats_equal(a: u64, b: u64) -> bool {
    !is_nan(a) && !is_nan(b) && (a == b || (is_zero(a) && is_zero(b)))
}

/// Equality of values of the same kind: arrays element by element, structs by
/// name whatever the order of their fields.
pub open spec fn same(a: ValueModel, b: ValueModel) -> bool
    decreases a, 0int,
{
    match (a, b) {
        (ValueModel::Integer(x), ValueModel::Integer(y)) => x == y,
        (ValueModel::UnsignedInteger(x), ValueModel::UnsignedInteger(y)) => x == y,
        (ValueModel::Float(x), ValueModel::Float(y)) => floats_equal(x, y),
        (ValueModel::Boolean(x), ValueModel::Boolean(y)) => x == y,
        (ValueModel::Bytes(x), ValueModel::Bytes(y)) => x == y,
        (ValueModel::Str(x), ValueModel::Str(y)) => x == y,
        (ValueModel::Array(x), ValueModel::Array(y)) => x.len() == y.len() && same_items(
            x,
            y,
            x.len() as int,
        ),
        (ValueModel::Struct(x), ValueModel::Struct(y)) => x.len() == y.len() && same_entries(
            x,
            y,
            x.len() as int,
        ),
        (ValueModel::Null, ValueModel::Null) => true,
        _ => false,
    }
}

/// The first `n` elements of `x` are the same as those of `y`.
pub open spec fn same_items(x: Seq<ValueModel>, y: Seq<ValueModel>, n: int) -> bool
    decreases x, n,
{
    if n <= 0 || n > x.len() {
        true
    } else {
        same_items(x, y, n - 1) && same(x[n - 1], y[n - 1])
    }
}

/// Each of the first `n` entries of `x` has its like under the same name in `y`.
pub open spec fn same_entries(
    x: Seq<(Seq<char>, ValueModel)>,
    y: Seq<(Seq<char>, ValueModel)>,
    n: int,
) -> bool
    decreases x, n,
{
    if n <= 0 || n > x.len() {
        true
    } else {
        same_entries(x, y, n - 1) && match named::find_entry(y, x[n - 1].0) {
            Some(v) => same(x[n - 1].1, v),
            None => false,
        }
    }
}

fn float_bits_equal(a: u64, b: u64) -> (r: bool)
    ensures
        r == floats_equal(a, b),
{
    let x: u64 = a % 0x8000_0000_0000_0000;
    let y: u64 = b % 0x8000_0000_0000_0000;
    x <= 0x7ff0_0000_0000_0000 && y <= 0x7ff0_0000_0000_0000 && (a == b || (x == 0 && y == 0))
}

/// Whether two byte strings are equal.
pub fn bytes_equal(a: &[u8], b: &[u8]) -> (r: bool)
    ensures
        r == (a@ == b@),
{
    if a.len() != b.len() {
        return false;
    }
    let mut i: usize = 0;
    while i < a.len()
        invariant
            i <= a@.len(),
            a@.len() == b@.len(),
            forall|k: int| 0 <= k < i ==> a@[k] == b@[k],
        decreases a@.len() - i,
    {
        if a[i] != b[i] {
            return false;
        }
        i = i + 1;
    }
    assert(a@ =~= b@);
    true
}

proof fn lemma_same_items_fails(x: Seq<ValueModel>, y: Seq<ValueModel>, k: int, n: int)
    requires
        0 <= k <= n <= x.len(),
        !same_items(x, y, k),
    ensures
        !same_items(x, y, n),
    decreases n,
{
    if k < n {
        lemma_same_items_fails(x, y, k, n - 1);
    }
}

proof fn lemma_same_entries_fails(
    x: Seq<(Seq<char>, ValueModel)>,
    y: Seq<(Seq<char>, ValueModel)>,
    k: int,
    n: int,
)
    requires
        0 <= k <= n <= x.len(),
        !same_entries(x, y, k),
    ensures
        !same_entries(x, y, n),
    decreases n,
{
    if k < n {
        lemma_same_entries_fails(x, y, k, n - 1);
    }
}

impl Value {
    /// Whether two values are the same.
    pub fn same_as(&self, other: &Value) -> (r: bool)
        ensures
            r == same(self@, other@),
        decreases self@,
    {
        proof {
            lemma_value_model(*self);
            lemma_value_model(*other);
        }
        match (self, other) {
            (Value::Integer(x), Value::Integer(y)) => *x == *y,
            (Value::UnsignedInteger(x), Value::UnsignedInteger(y)) => *x == *y,
            (Value::Float(x), Value::Float(y)) => float_bits_equal(*x, *y),
            (Value::Boolean(x), Value::Boolean(y)) => *x == *y,
            (Value::Bytes(x), Value::Bytes(y)) => bytes_equal(x.as_slice(), y.as_slice()),
            (Value::Str(x), Value::Str(y)) => *x == *y,
            (Value::Array(x), Value::Array(y)) => {
                if x.len() != y.len() {
                    return false;
                }
                let mut i: usize = 0;
                while i < x.len()
                    invariant
                        self@ == ValueModel::Array(value_models(x@)),
                        other@ == ValueModel::Array(value_models(y@)),
                        x@.len() == y@.len(),
                        i <= x@.len(),
                        same_items(value_models(x@), value_models(y@), i as int),
                    decreases x@.len() - i,
                {
                    assert(self@->Array_0[i as int] == x@[i as int]@);
                    assert(other@->Array_0[i as int] == y@[i as int]@);
                    if !x[i].same_as(&y[i]) {
                        proof {
                            lemma_same_items_fails(
                                value_models(x@),
                                value_models(y@),
                                i + 1,
                                x@.len() as int,
                            );
                        }
                        return false;
                    }
                    i = i + 1;
                }
                true
            },
            (Value::Struct(x), Value::Struct(y)) => {
                if x.len() != y.len() {
                    return false;
                }
                let mut i: usize = 0;
                while i < x.len()
                    invariant
                        self@ == ValueModel::Struct(x@),
                        other@ == ValueModel::Struct(y@),
                        x@.len() == y@.len(),
                        i <= x@.len(),
                        same_entries(x@, y@, i as int),
                    decreases x@.len() - i,
                {
                    assert(self@->Struct_0[i as int].1 == x@[i as int].1);
                    let alike = match y.get(x.name_at(i).as_str()) {
                        Some(v) => x.value_at(i).same_as(v),
                        None => false,
                    };
                    if !alike {
                        proof {
                            lemma_same_entries_fails(x@, y@, i + 1, x@.len() as int);
                        }
                        return false;
                    }
                    i = i + 1;
                }
                true
            },
            (Value::Null, Value::Null) => true,
            _ => false,
        }
    }
}

impl PartialEq for Value {
    fn eq(&self, other: &Value) -> (r: bool) {
        self.same_as(other)
    }
}

impl vstd::std_specs::cmp::PartialEqSpecImpl for Value {
    open spec fn obeys_eq_spec() -> bool {
        true
    }

    open spec fn eq_spec(&self, other: &Value) -> bool {
        same(self@, other@)
    }
}

/// A decoded packet.
#[derive(Debug)]
pub struct DecodedPacket {
    /// The place of the packet among the decoded ones, from zero.
    pub index: u64,
    /// The bytes that were decoded.
    pub raw_bytes: Vec<u8>,
    /// The decoded fields, in the order of their declaration.
    pub fields: Fields,
}

/// The mathematical counterpart of [`DecodedPacket`].
pub struct PacketModel {
    pub index: u64,
    pub raw_bytes: Seq<u8>,
    pub fields: Seq<(Seq<char>, ValueModel)>,
}

impl View for DecodedPacket {
    type V = PacketModel;

    open spec fn view(&self) -> PacketModel {
        PacketModel { index: self.index, raw_bytes: self.raw_bytes@, fields: self.fields@ }
    }
}

impl Clone for DecodedPacket {
    fn clone(&self) -> (r: DecodedPacket)
        ensures
            r@ == self@,
    {
        let raw_bytes = self.raw_bytes.clone();
        assert(raw_bytes@ =~= self.raw_bytes@);
        DecodedPacket { index: self.index, raw_bytes, fields: self.fields.clone() }
    }
}

// ---------------------------------------------------------------------------
// Laws
// ---------------------------------------------------------------------------

/// No name stands twice in a struct, at any depth.
pub open spec fn distinctly_named(v: ValueModel) -> bool
    decreases v, 0int,
{
    match v {
        ValueModel::Array(a) => items_distinctly_named(a, a.len() as int),
        ValueModel::Struct(f) => named::distinct_names(f) && entries_distinctly_named(
            f,
            f.len() as int,
        ),
        _ => true,
    }
}

/// The same of the first `n` elements.
pub open spec fn items_distinctly_named(a: Seq<ValueModel>, n: int) -> bool
    decreases a, n,
{
    if n <= 0 || n > a.len() {
        true
    } else {
        items_distinctly_named(a, n - 1) && distinctly_named(a[n - 1])
    }
}

/// The same of the first `n` entries.
pub open spec fn entries_distinctly_named(f: Seq<(Seq<char>, ValueModel)>, n: int) -> bool
    decreases f, n,
{
    if n <= 0 || n > f.len() {
        true
    } else {
        entries_distinctly_named(f, n - 1) && distinctly_named(f[n - 1].1)
    }
}

pub(crate) proof fn lemma_entry_distinctly_named(f: Seq<(Seq<char>, ValueModel)>, n: int, i: int)
    requires
        0 <= i < n <= f.len(),
        entries_distinctly_named(f, n),
    ensures
        distinctly_named(f[i].1),
    decreases n,
{
    if i < n - 1 {
        lemma_entry_distinctly_named(f, n - 1, i);
    }
}

pub(crate) proof fn lemma_put_distinctly_named(
    f: Seq<(Seq<char>, ValueModel)>,
    name: Seq<char>,
    v: ValueModel,
)
    requires
        distinctly_named(ValueModel::Struct(f)),
        distinctly_named(v),
    ensures
        distinctly_named(ValueModel::Struct(named::put_entry(f, name, v))),
{
    let g = named::put_entry(f, name, v);
    named::lemma_put_distinct(f, name, v);
    named::lemma_entry_index(f, name);
    assert forall|i: int| 0 <= i < g.len() implies distinctly_named(#[trigger] g[i].1) by {
        if i < f.len() {
            lemma_entry_distinctly_named(f, f.len() as int, i);
        }
    }
    lemma_entries_distinctly_named(g, g.len() as int);
}

proof fn lemma_entries_distinctly_named(f: Seq<(Seq<char>, ValueModel)>, n: int)
    requires
        n <= f.len(),
        forall|i: int| 0 <= i < n ==> distinctly_named(#[trigger] f[i].1),
    ensures
        entries_distinctly_named(f, n),
    decreases n,
{
    if n > 0 {
        lemma_entries_distinctly_named(f, n - 1);
        assert(distinctly_named(f[n - 1].1));
    }
}

pub(crate) proof fn lemma_push_distinctly_named(a: Seq<ValueModel>, n: int, v: ValueModel)
    requires
        n <= a.len(),
        items_distinctly_named(a, n),
        distinctly_named(v),
    ensures
        items_distinctly_named(a.push(v), n),
        n == a.len() ==> items_distinctly_named(a.push(v), n + 1),
    decreases n,
{
    if n > 0 {
        lemma_push_distinctly_named(a, n - 1, v);
        assert(a.push(v)[n - 1] == a[n - 1]);
    }
    if n == a.len() {
        let longer = a.push(v);
        assert(items_distinctly_named(longer, n));
        assert(longer[n + 1 - 1] == v);
    }
}

proof fn lemma_same_entry(
    x: Seq<(Seq<char>, ValueModel)>,
    y: Seq<(Seq<char>, ValueModel)>,
    n: int,
    i: int,
)
    requires
        0 <= i < n <= x.len(),
        same_entries(x, y, n),
    ensures
        match named::find_entry(y, x[i].0) {
            Some(v) => same(x[i].1, v),
            None => false,
        },
    decreases n,
{
    if i < n - 1 {
        lemma_same_entry(x, y, n - 1, i);
    }
}

/// As many names, each of which stands among the others too, are the others.
proof fn lemma_names_back(
    x: Seq<(Seq<char>, ValueModel)>,
    y: Seq<(Seq<char>, ValueModel)>,
    j: int,
) -> (i: int)
    requires
        named::distinct_names(x),
        named::distinct_names(y),
        x.len() == y.len(),
        same_entries(x, y, x.len() as int),
        0 <= j < y.len(),
    ensures
        0 <= i < x.len(),
        x[i].0 == y[j].0,
{
    let xs = Seq::new(x.len(), |k: int| x[k].0);
    let ys = Seq::new(y.len(), |k: int| y[k].0);
    xs.unique_seq_to_set();
    ys.unique_seq_to_set();
    assert forall|w: Seq<char>| xs.to_set().contains(w) implies ys.to_set().contains(w) by {
        let k = choose|k: int| 0 <= k < xs.len() && xs[k] == w;
        lemma_same_entry(x, y, x.len() as int, k);
        named::lemma_entry_index(y, w);
        assert(ys[named::entry_index(y, w)->0] == w);
    }
    vstd::set_lib::lemma_subset_equality(xs.to_set(), ys.to_set());
    assert(ys[j] == y[j].0);
    assert(xs.to_set().contains(y[j].0));
    choose|i: int| 0 <= i < xs.len() && xs[i] == y[j].0
}

proof fn lemma_same_back(a: ValueModel, b: ValueModel)
    requires
        same(a, b),
        distinctly_named(a),
        distinctly_named(b),
    ensures
        same(b, a),
    decreases a, 0int,
{
    match (a, b) {
        (ValueModel::Array(x), ValueModel::Array(y)) => {
            lemma_same_items_back(x, y, x.len() as int);
        },
        (ValueModel::Struct(x), ValueModel::Struct(y)) => {
            lemma_same_entries_back(x, y, y.len() as int);
        },
        _ => {},
    }
}

proof fn lemma_same_items_back(x: Seq<ValueModel>, y: Seq<ValueModel>, n: int)
    requires
        x.len() == y.len(),
        n <= x.len(),
        same_items(x, y, n),
        items_distinctly_named(x, n),
        items_distinctly_named(y, n),
    ensures
        same_items(y, x, n),
    decreases x, n,
{
    if n > 0 {
        lemma_same_items_back(x, y, n - 1);
        lemma_same_back(x[n - 1], y[n - 1]);
    }
}

proof fn lemma_same_entries_back(
    x: Seq<(Seq<char>, ValueModel)>,
    y: Seq<(Seq<char>, ValueModel)>,
    n: int,
)
    requires
        x.len() == y.len(),
        n <= y.len(),
        same_entries(x, y, x.len() as int),
        named::distinct_names(x),
        named::distinct_names(y),
        entries_distinctly_named(x, x.len() as int),
        entries_distinctly_named(y, y.len() as int),
    ensures
        same_entries(y, x, n),
    decreases x, n,
{
    if n > 0 {
        let j = n - 1;
        let i = lemma_names_back(x, y, j);
        lemma_same_entries_back(x, y, n - 1);
        lemma_same_entry(x, y, x.len() as int, i);
        named::lemma_entry_index(y, x[i].0);
        named::lemma_entry_index(x, y[j].0);
        lemma_entry_distinctly_named(x, x.len() as int, i);
        lemma_entry_distinctly_named(y, y.len() as int, j);
        assert(decreases_to!(x => x[i].1));
        lemma_same_back(x[i].1, y[j].1);
    }
}

/// Equality of values goes both ways.
pub proof fn law_equality_goes_both_ways(a: ValueModel, b: ValueModel)
    requires
        distinctly_named(a),
        distinctly_named(b),
    ensures
        same(a, b) == same(b, a),
{
    if same(a, b) {
        lemma_same_back(a, b);
    }
    if same(b, a) {
        lemma_same_back(b, a);
    }
}

} // verus!
