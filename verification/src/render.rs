//! Texts of values: the form shown to a reader, and the form that error
//! messages quote.
use vstd::prelude::*;

use crate::result::Value;
use crate::text::{concat3, debug_str, decimal_i64, decimal_u64, push_hex};
#[allow(unused_imports)]
use crate::{named, result, result::ValueModel, text};

verus! {

// ---------------------------------------------------------------------------
// Texts of floating-point numbers
// ---------------------------------------------------------------------------

/// The texts of one floating-point number, which the caller supplies.
#[derive(Debug, Clone)]
pub struct FloatText {
    /// The IEEE 754 bit pattern of the number.
    pub bits: u64,
    /// The number as shown to a reader (`1.5`, `2`).
    pub display: String,
    /// The number as quoted in a message (`1.5`, `2.0`).
    pub debug: String,
}

/// The texts of floating-point numbers by bit pattern: the one for readers and
/// the one for messages.
pub type FloatTable = Map<u64, (Seq<char>, Seq<char>)>;

/// What a list of texts says of each number; the first entry counts.
pub open spec fn float_table(texts: Seq<FloatText>) -> FloatTable
    decreases texts.len(),
{
    if texts.len() == 0 {
        Map::empty()
    } else {
        let earlier = float_table(texts.drop_last());
        let last = texts.last();
        if earlier.contains_key(last.bits) {
            earlier
        } else {
            earlier.insert(last.bits, (last.display@, last.debug@))
        }
    }
}

fn find_float(texts: &Vec<FloatText>, bits: u64) -> (r: &FloatText)
    requires
        float_table(texts@).contains_key(bits),
    ensures
        (r.display@, r.debug@) == float_table(texts@)[bits],
{
    let count: usize = texts.len();
    let mut i: usize = 0;
    let ghost all = texts@;
    loop
        invariant
            all == texts@,
            i <= count == texts@.len(),
            float_table(all).contains_key(bits),
            !float_table(all.take(i as int)).contains_key(bits),
        decreases texts@.len() - i,
    {
        proof {
            if i == texts@.len() {
                assert(all.take(i as int) =~= all);
            }
            assert(i < texts@.len());
            assert(all.take(i + 1).drop_last() =~= all.take(i as int));
            assert(all.take(i + 1).last() == all[i as int]);
        }
        if texts[i].bits == bits {
            proof {
                lemma_float_table_grows(all, i + 1, all.len() as int, bits);
                assert(all.take(all.len() as int) =~= all);
            }
            return &texts[i];
        }
        i = i + 1;
    }
}

proof fn lemma_float_table_grows(all: Seq<FloatText>, i: int, j: int, bits: u64)
    requires
        0 <= i <= j <= all.len(),
        float_table(all.take(i)).contains_key(bits),
    ensures
        float_table(all.take(j)).contains_key(bits),
        float_table(all.take(j))[bits] == float_table(all.take(i))[bits],
    decreases j,
{
    if i < j {
        lemma_float_table_grows(all, i, j - 1, bits);
        assert(all.take(j).drop_last() =~= all.take(j - 1));
    }
}

/// Every floating-point number in `v` has its texts in `t`.
pub open spec fn covered(v: ValueModel, t: FloatTable) -> bool
    decreases v, 0int,
{
    match v {
        ValueModel::Float(b) => t.contains_key(b),
        ValueModel::Array(a) => forall|i: int|
            0 <= i < a.len() ==> covered(#[trigger] a[i], t),
        ValueModel::Struct(f) => entries_covered(f, t),
        _ => true,
    }
}

pub open spec fn entries_covered(f: Seq<(Seq<char>, ValueModel)>, t: FloatTable) -> bool
    decreases f, 0int,
{
    forall|i: int| 0 <= i < f.len() ==> covered((#[trigger] f[i]).1, t)
}

/// The floating-point numbers in `v`, in the order in which they stand.
pub open spec fn floats_in(v: ValueModel) -> Seq<u64>
    decreases v, 0int,
{
    match v {
        ValueModel::Float(b) => seq![b],
        ValueModel::Array(a) => floats_in_items(a, a.len() as int),
        ValueModel::Struct(f) => floats_in_entries(f, f.len() as int),
        _ => Seq::empty(),
    }
}

pub open spec fn floats_in_items(a: Seq<ValueModel>, n: int) -> Seq<u64>
    decreases a, n,
{
    if n <= 0 || n > a.len() {
        Seq::empty()
    } else {
        floats_in_items(a, n - 1) + floats_in(a[n - 1])
    }
}

pub open spec fn floats_in_entries(f: Seq<(Seq<char>, ValueModel)>, n: int) -> Seq<u64>
    decreases f, n,
{
    if n <= 0 || n > f.len() {
        Seq::empty()
    } else {
        floats_in_entries(f, n - 1) + floats_in(f[n - 1].1)
    }
}

/// A table that has the texts of all the numbers that [`floats_in`] lists has
/// all that it takes to render the value.
pub proof fn law_listed_numbers_suffice(v: ValueModel, t: FloatTable)
    requires
        forall|b: u64| floats_in(v).contains(b) ==> #[trigger] t.contains_key(b),
    ensures
        covered(v, t),
    decreases v,
{
    match v {
        ValueModel::Float(b) => {
            assert(floats_in(v)[0] == b);
            assert(floats_in(v).contains(b));
        },
        ValueModel::Array(a) => {
            assert forall|i: int| 0 <= i < a.len() implies covered(#[trigger] a[i], t) by {
                assert forall|b: u64| floats_in(a[i]).contains(b) implies #[trigger] t.contains_key(
                    b,
                ) by {
                    lemma_item_floats(a, i, a.len() as int, b);
                }
                law_listed_numbers_suffice(a[i], t);
            }
        },
        ValueModel::Struct(f) => {
            assert forall|i: int| 0 <= i < f.len() implies covered((#[trigger] f[i]).1, t) by {
                assert forall|b: u64| floats_in(f[i].1).contains(b) implies #[trigger] t.contains_key(
                    b,
                ) by {
                    lemma_entry_floats(f, i, f.len() as int, b);
                }
                law_listed_numbers_suffice(f[i].1, t);
            }
            assert(entries_covered(f, t));
        },
        _ => {},
    }
}

/// The same of named values.
pub proof fn law_listed_numbers_suffice_for_entries(
    f: Seq<(Seq<char>, ValueModel)>,
    t: FloatTable,
)
    requires
        forall|b: u64|
            floats_in_entries(f, f.len() as int).contains(b) ==> #[trigger] t.contains_key(b),
    ensures
        entries_covered(f, t),
{
    let v = ValueModel::Struct(f);
    assert(floats_in(v) == floats_in_entries(f, f.len() as int));
    law_listed_numbers_suffice(v, t);
}

/// A number whose texts are in a list is in the table.
pub proof fn law_texts_are_found(texts: Seq<FloatText>, i: int)
    requires
        0 <= i < texts.len(),
    ensures
        float_table(texts).contains_key(texts[i].bits),
    decreases texts.len(),
{
    if i < texts.len() - 1 {
        law_texts_are_found(texts.drop_last(), i);
    }
}

proof fn lemma_item_floats(a: Seq<ValueModel>, i: int, n: int, b: u64)
    requires
        0 <= i < n <= a.len(),
        floats_in(a[i]).contains(b),
    ensures
        floats_in_items(a, n).contains(b),
    decreases n,
{
    let before = floats_in_items(a, n - 1);
    let last = floats_in(a[n - 1]);
    if i < n - 1 {
        lemma_item_floats(a, i, n - 1, b);
        let k = choose|k: int| 0 <= k < before.len() && before[k] == b;
        assert((before + last)[k] == b);
    } else {
        let k = choose|k: int| 0 <= k < last.len() && last[k] == b;
        assert((before + last)[before.len() + k] == b);
    }
}

proof fn lemma_entry_floats(f: Seq<(Seq<char>, ValueModel)>, i: int, n: int, b: u64)
    requires
        0 <= i < n <= f.len(),
        floats_in(f[i].1).contains(b),
    ensures
        floats_in_entries(f, n).contains(b),
    decreases n,
{
    let before = floats_in_entries(f, n - 1);
    let last = floats_in(f[n - 1].1);
    if i < n - 1 {
        lemma_entry_floats(f, i, n - 1, b);
        let k = choose|k: int| 0 <= k < before.len() && before[k] == b;
        assert((before + last)[k] == b);
    } else {
        let k = choose|k: int| 0 <= k < last.len() && last[k] == b;
        assert((before + last)[before.len() + k] == b);
    }
}

impl Value {
    /// The floating-point numbers in the value, in the order in which they stand.
    pub fn floats(&self) -> (r: Vec<u64>)
        ensures
            r@ == floats_in(self@),
        decreases self@,
    {
        proof {
            result::lemma_value_model(*self);
        }
        let mut out: Vec<u64> = Vec::new();
        match self {
            Value::Float(b) => {
                out.push(*b);
            },
            Value::Array(a) => {
                let mut i: usize = 0;
                while i < a.len()
                    invariant
                        self@ == ValueModel::Array(result::value_models(a@)),
                        i <= a@.len(),
                        out@ == floats_in_items(result::value_models(a@), i as int),
                    decreases a@.len() - i,
                {
                    assert(self@->Array_0[i as int] == a@[i as int]@);
                    let mut more = a[i].floats();
                    out.append(&mut more);
                    i = i + 1;
                }
            },
            Value::Struct(f) => {
                let mut i: usize = 0;
                while i < f.len()
                    invariant
                        self@ == ValueModel::Struct(f@),
                        i <= f@.len(),
                        out@ == floats_in_entries(f@, i as int),
                    decreases f@.len() - i,
                {
                    assert(self@->Struct_0[i as int].1 == f@[i as int].1);
                    let mut more = f.value_at(i).floats();
                    out.append(&mut more);
                    i = i + 1;
                }
            },
            _ => {},
        }
        assert(out@ =~= floats_in(self@));
        out
    }
}

// ---------------------------------------------------------------------------
// The form shown to a reader
// ---------------------------------------------------------------------------

/// The bytes as pairs of hexadecimal digits with spaces between them.
pub open spec fn hex_bytes(b: Seq<u8>) -> Seq<char>
    decreases b.len(),
{
    if b.len() == 0 {
        Seq::empty()
    } else if b.len() == 1 {
        text::hex_pair(b[0])
    } else {
        hex_bytes(b.drop_last()) + seq![' '] + text::hex_pair(b.last())
    }
}

/// The text of a truth value.
pub open spec fn bool_text(b: bool) -> Seq<char> {
    if b {
        "true"@
    } else {
        "false"@
    }
}

/// The text of a value: numbers in decimal, bytes in hexadecimal, strings as
/// they are, arrays in square brackets and structs in braces.
pub open spec fn display_text(v: ValueModel, t: FloatTable) -> Seq<char>
    decreases v, 0int,
{
    match v {
        ValueModel::Integer(n) => text::decimal_signed(n as int),
        ValueModel::UnsignedInteger(n) => text::decimal(n as nat),
        ValueModel::Float(b) => t[b].0,
        ValueModel::Boolean(b) => bool_text(b),
        ValueModel::Bytes(b) => hex_bytes(b),
        ValueModel::Str(s) => s,
        ValueModel::Array(a) => "["@ + display_items(a, a.len() as int, t) + "]"@,
        ValueModel::Struct(f) => "{"@ + display_entries(f, f.len() as int, t) + "}"@,
        ValueModel::Null => "null"@,
    }
}

/// The texts of the first `n` elements, with commas between them.
pub open spec fn display_items(a: Seq<ValueModel>, n: int, t: FloatTable) -> Seq<char>
    decreases a, n,
{
    if n <= 0 || n > a.len() {
        Seq::empty()
    } else if n == 1 {
        display_text(a[0], t)
    } else {
        display_items(a, n - 1, t) + ", "@ + display_text(a[n - 1], t)
    }
}

/// The first `n` entries as `name: value`, with commas between them.
pub open spec fn display_entries(
    f: Seq<(Seq<char>, ValueModel)>,
    n: int,
    t: FloatTable,
) -> Seq<char>
    decreases f, n,
{
    if n <= 0 || n > f.len() {
        Seq::empty()
    } else if n == 1 {
        f[0].0 + ": "@ + display_text(f[0].1, t)
    } else {
        display_entries(f, n - 1, t) + ", "@ + (f[n - 1].0 + ": "@ + display_text(f[n - 1].1, t))
    }
}

/// The bytes as pairs of hexadecimal digits with spaces between them.
pub fn hex_text(b: &[u8]) -> (r: String)
    ensures
        r@ == hex_bytes(b@),
{
    let mut out = String::new();
    let mut i: usize = 0;
    assert(b@.take(0) =~= Seq::<u8>::empty());
    while i < b.len()
        invariant
            i <= b@.len(),
            out@ == hex_bytes(b@.take(i as int)),
        decreases b@.len() - i,
    {
        let ghost before = out@;
        if i > 0 {
            out.push(' ');
        }
        push_hex(&mut out, b[i]);
        i = i + 1;
        proof {
            let now = b@.take(i as int);
            assert(now.drop_last() =~= b@.take(i - 1));
            assert(now.last() == b@[i - 1]);
            if i == 1 {
                assert(out@ =~= text::hex_pair(b@[0]));
            } else {
                assert(out@ =~= before + seq![' '] + text::hex_pair(b@[i - 1]));
            }
        }
    }
    assert(b@.take(i as int) =~= b@);
    out
}

impl Value {
    /// The text of the value, for a reader.
    pub fn display(&self, floats: &Vec<FloatText>) -> (r: String)
        requires
            covered(self@, float_table(floats@)),
        ensures
            r@ == display_text(self@, float_table(floats@)),
        decreases self@,
    {
        proof {
            result::lemma_value_model(*self);
        }
        let ghost t = float_table(floats@);
        match self {
            Value::Integer(n) => decimal_i64(*n),
            Value::UnsignedInteger(n) => decimal_u64(*n),
            Value::Float(b) => find_float(floats, *b).display.clone(),
            Value::Boolean(b) => if *b {
                "true".to_owned()
            } else {
                "false".to_owned()
            },
            Value::Bytes(b) => hex_text(b.as_slice()),
            Value::Str(s) => s.clone(),
            Value::Array(a) => {
                let mut out = String::new();
                let mut i: usize = 0;
                while i < a.len()
                    invariant
                        t == float_table(floats@),
                        self@ == ValueModel::Array(result::value_models(a@)),
                        covered(self@, t),
                        i <= a@.len(),
                        out@ == display_items(result::value_models(a@), i as int, t),
                    decreases a@.len() - i,
                {
                    assert(self@->Array_0[i as int] == a@[i as int]@);
                    if i > 0 {
                        out.append(", ");
                    }
                    let part = a[i].display(floats);
                    out.append(part.as_str());
                    i = i + 1;
                    assert(out@ =~= display_items(result::value_models(a@), i as int, t));
                }
                concat3("[", out.as_str(), "]")
            },
            Value::Struct(f) => {
                let mut out = String::new();
                let mut i: usize = 0;
                while i < f.len()
                    invariant
                        t == float_table(floats@),
                        self@ == ValueModel::Struct(f@),
                        covered(self@, t),
                        i <= f@.len(),
                        out@ == display_entries(f@, i as int, t),
                    decreases f@.len() - i,
                {
                    assert(self@->Struct_0[i as int].1 == f@[i as int].1);
                    assert(entries_covered(f@, t));
                    if i > 0 {
                        out.append(", ");
                    }
                    let part = f.value_at(i).display(floats);
                    let entry = concat3(f.name_at(i).as_str(), ": ", part.as_str());
                    out.append(entry.as_str());
                    i = i + 1;
                    assert(out@ =~= display_entries(f@, i as int, t));
                }
                concat3("{", out.as_str(), "}")
            },
            Value::Null => "null".to_owned(),
        }
    }
}

// ---------------------------------------------------------------------------
// The form that messages quote
// ---------------------------------------------------------------------------

/// The text of a value in a message: its kind, and in brackets what it holds.
pub open spec fn debug_text(v: ValueModel, t: FloatTable) -> Seq<char>
    decreases v, 0int,
{
    match v {
        ValueModel::Integer(n) => "Integer("@ + text::decimal_signed(n as int) + ")"@,
        ValueModel::UnsignedInteger(n) => "UnsignedInteger("@ + text::decimal(n as nat) + ")"@,
        ValueModel::Float(b) => "Float("@ + t[b].1 + ")"@,
        ValueModel::Boolean(b) => "Boolean("@ + bool_text(b) + ")"@,
        ValueModel::Bytes(b) => "Bytes(["@ + decimal_list(b) + "])"@,
        ValueModel::Str(s) => "Str("@ + text::str_debug(s) + ")"@,
        ValueModel::Array(a) => "Array(["@ + debug_items(a, a.len() as int, t) + "])"@,
        ValueModel::Struct(f) => "Struct({"@ + debug_entries(f, f.len() as int, t) + "})"@,
        ValueModel::Null => "Null"@,
    }
}

/// The numerals of bytes, with commas between them.
pub open spec fn decimal_list(b: Seq<u8>) -> Seq<char>
    decreases b.len(),
{
    if b.len() == 0 {
        Seq::empty()
    } else if b.len() == 1 {
        text::decimal(b[0] as nat)
    } else {
        decimal_list(b.drop_last()) + ", "@ + text::decimal(b.last() as nat)
    }
}

pub open spec fn debug_items(a: Seq<ValueModel>, n: int, t: FloatTable) -> Seq<char>
    decreases a, n,
{
    if n <= 0 || n > a.len() {
        Seq::empty()
    } else if n == 1 {
        debug_text(a[0], t)
    } else {
        debug_items(a, n - 1, t) + ", "@ + debug_text(a[n - 1], t)
    }
}

pub open spec fn debug_entries(
    f: Seq<(Seq<char>, ValueModel)>,
    n: int,
    t: FloatTable,
) -> Seq<char>
    decreases f, n,
{
    if n <= 0 || n > f.len() {
        Seq::empty()
    } else if n == 1 {
        text::str_debug(f[0].0) + ": "@ + debug_text(f[0].1, t)
    } else {
        debug_entries(f, n - 1, t) + ", "@ + (text::str_debug(f[n - 1].0) + ": "@ + debug_text(
            f[n - 1].1,
            t,
        ))
    }
}

/// The bytes as pairs of hexadecimal digits, with commas between them.
pub open spec fn hex_list(b: Seq<u8>) -> Seq<char>
    decreases b.len(),
{
    if b.len() == 0 {
        Seq::empty()
    } else if b.len() == 1 {
        text::hex_pair(b[0])
    } else {
        hex_list(b.drop_last()) + ", "@ + text::hex_pair(b.last())
    }
}

/// The bytes as pairs of hexadecimal digits, with commas between them.
pub fn hex_list_text(b: &[u8]) -> (r: String)
    ensures
        r@ == hex_list(b@),
{
    let mut out = String::new();
    let mut i: usize = 0;
    assert(b@.take(0) =~= Seq::<u8>::empty());
    while i < b.len()
        invariant
            i <= b@.len(),
            out@ == hex_list(b@.take(i as int)),
        decreases b@.len() - i,
    {
        if i > 0 {
            out.append(", ");
        }
        push_hex(&mut out, b[i]);
        i = i + 1;
        proof {
            let now = b@.take(i as int);
            assert(now.drop_last() =~= b@.take(i - 1));
            assert(now.last() == b@[i - 1]);
            if i == 1 {
                assert(out@ =~= text::hex_pair(b@[0]));
            }
        }
    }
    assert(b@.take(i as int) =~= b@);
    out
}

fn decimal_list_text(b: &[u8]) -> (r: String)
    ensures
        r@ == decimal_list(b@),
{
    let mut out = String::new();
    let mut i: usize = 0;
    assert(b@.take(0) =~= Seq::<u8>::empty());
    while i < b.len()
        invariant
            i <= b@.len(),
            out@ == decimal_list(b@.take(i as int)),
        decreases b@.len() - i,
    {
        let ghost before = out@;
        if i > 0 {
            out.append(", ");
        }
        let numeral = decimal_u64(b[i] as u64);
        out.append(numeral.as_str());
        i = i + 1;
        proof {
            let now = b@.take(i as int);
            assert(now.drop_last() =~= b@.take(i - 1));
            assert(now.last() == b@[i - 1]);
            if i == 1 {
                assert(out@ =~= text::decimal(b@[0] as nat));
            }
        }
    }
    assert(b@.take(i as int) =~= b@);
    out
}

impl Value {
    /// The text of the value, for a message.
    pub fn debug(&self, floats: &Vec<FloatText>) -> (r: String)
        requires
            covered(self@, float_table(floats@)),
        ensures
            r@ == debug_text(self@, float_table(floats@)),
        decreases self@,
    {
        proof {
            result::lemma_value_model(*self);
        }
        let ghost t = float_table(floats@);
        match self {
            Value::Integer(n) => concat3("Integer(", decimal_i64(*n).as_str(), ")"),
            Value::UnsignedInteger(n) => concat3("UnsignedInteger(", decimal_u64(*n).as_str(), ")"),
            Value::Float(b) => concat3("Float(", find_float(floats, *b).debug.as_str(), ")"),
            Value::Boolean(b) => concat3(
                "Boolean(",
                if *b {
                    "true"
                } else {
                    "false"
                },
                ")",
            ),
            Value::Bytes(b) => concat3("Bytes([", decimal_list_text(b.as_slice()).as_str(), "])"),
            Value::Str(s) => concat3("Str(", debug_str(s.as_str()).as_str(), ")"),
            Value::Array(a) => {
                let mut out = String::new();
                let mut i: usize = 0;
                while i < a.len()
                    invariant
                        t == float_table(floats@),
                        self@ == ValueModel::Array(result::value_models(a@)),
                        covered(self@, t),
                        i <= a@.len(),
                        out@ == debug_items(result::value_models(a@), i as int, t),
                    decreases a@.len() - i,
                {
                    assert(self@->Array_0[i as int] == a@[i as int]@);
                    if i > 0 {
                        out.append(", ");
                    }
                    let part = a[i].debug(floats);
                    out.append(part.as_str());
                    i = i + 1;
                    assert(out@ =~= debug_items(result::value_models(a@), i as int, t));
                }
                concat3("Array([", out.as_str(), "])")
            },
            Value::Struct(f) => {
                let mut out = String::new();
                let mut i: usize = 0;
                while i < f.len()
                    invariant
                        t == float_table(floats@),
                        self@ == ValueModel::Struct(f@),
                        covered(self@, t),
                        i <= f@.len(),
                        out@ == debug_entries(f@, i as int, t),
                    decreases f@.len() - i,
                {
                    assert(self@->Struct_0[i as int].1 == f@[i as int].1);
                    assert(entries_covered(f@, t));
                    if i > 0 {
                        out.append(", ");
                    }
                    let part = f.value_at(i).debug(floats);
                    let name = debug_str(f.name_at(i).as_str());
                    let entry = concat3(name.as_str(), ": ", part.as_str());
                    out.append(entry.as_str());
                    i = i + 1;
                    assert(out@ =~= debug_entries(f@, i as int, t));
                }
                concat3("Struct({", out.as_str(), "})")
            },
            Value::Null => "Null".to_owned(),
        }
    }
}

} // verus!
