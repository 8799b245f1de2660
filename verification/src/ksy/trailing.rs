//! Bytes after the last field: where nothing reads to the end of the data, they
//! change nothing.
use vstd::prelude::*;

#[allow(unused_imports)]
use crate::{
    error::ErrorModel, ksy::eval, ksy::expr::ExprModel, ksy::interp, ksy::interp::ChosenModel,
    ksy::interp::Entries, ksy::interp::FrameModel, ksy::nesting, ksy::read, ksy::schema,
    ksy::schema::CaseModel, ksy::schema::Endian, ksy::schema::FieldModel, ksy::schema::PrimType,
    ksy::schema::RepeatModel, ksy::schema::TypeModel, ksy::schema::TypeSpecModel, named,
    result::ValueModel,
};

verus! {

// ---------------------------------------------------------------------------
// Definitions that do not read to the end
// ---------------------------------------------------------------------------

/// The type is not, and no case of it is, a string that may end with the data.
pub open spec fn definite_type(t: TypeSpecModel) -> bool
    decreases t, 0int,
{
    match t {
        TypeSpecModel::Primitive(prim) => prim != PrimType::StrZ,
        TypeSpecModel::Named(_) => true,
        TypeSpecModel::Switch { on, cases } => definite_cases(cases, cases.len() as int),
    }
}

/// The same of the first `n` cases.
pub open spec fn definite_cases(cases: Seq<(CaseModel, TypeSpecModel)>, n: int) -> bool
    decreases cases, n,
{
    if n <= 0 || n > cases.len() {
        true
    } else {
        definite_cases(cases, n - 1) && definite_type(cases[n - 1].1)
    }
}

/// The field has neither `size-eos` nor `repeat: eos` nor the type `strz`.
pub open spec fn definite_field(f: FieldModel) -> bool {
    &&& !f.size_eos
    &&& f.repeat != Some(RepeatModel::Eos)
    &&& f.type_spec matches Some(t) ==> definite_type(t)
}

/// All the fields of the definition, and of those inside it, are such.
pub open spec fn definite(t: TypeModel) -> bool
    decreases t, 0int,
{
    &&& forall|i: int| 0 <= i < t.seq.len() ==> definite_field(#[trigger] t.seq[i])
    &&& definite_inside(t.types, t.types.len() as int)
}

/// The same of the first `n` definitions.
pub open spec fn definite_inside(types: Seq<(Seq<char>, TypeModel)>, n: int) -> bool
    decreases types, n,
{
    if n <= 0 || n > types.len() {
        true
    } else {
        definite_inside(types, n - 1) && definite(types[n - 1].1)
    }
}

proof fn lemma_definite_inside(types: Seq<(Seq<char>, TypeModel)>, n: int, m: int)
    requires
        0 <= m < n <= types.len(),
        definite_inside(types, n),
    ensures
        definite(types[m].1),
    decreases n,
{
    if m < n - 1 {
        lemma_definite_inside(types, n - 1, m);
    }
}

proof fn lemma_definite_chain(root: TypeModel, chain: Seq<TypeModel>, i: int)
    requires
        definite(root),
        nesting::linked(root, chain),
        0 <= i < chain.len(),
    ensures
        definite(chain[i]),
    decreases i,
{
    if i > 0 {
        lemma_definite_chain(root, chain, i - 1);
        assert(nesting::child(chain[i - 1], chain[i]));
        let types = chain[i - 1].types;
        let m = choose|m: int| 0 <= m < types.len() && #[trigger] types[m].1 == chain[i];
        lemma_definite_inside(types, types.len() as int, m);
    }
}

proof fn lemma_definite_case(cases: Seq<(CaseModel, TypeSpecModel)>, n: int, k: int)
    requires
        0 <= k < n <= cases.len(),
        definite_cases(cases, n),
    ensures
        definite_type(cases[k].1),
    decreases n,
{
    if k < n - 1 {
        lemma_definite_case(cases, n - 1, k);
    }
}

proof fn lemma_definite_chosen(t: TypeSpecModel, id: Seq<char>, done: Entries)
    requires
        definite_type(t),
    ensures
        match interp::chosen(t, id, done) {
            Ok(ChosenModel::Primitive(prim)) => prim != PrimType::StrZ,
            _ => true,
        },
    decreases t,
{
    if let TypeSpecModel::Switch { on, cases } = t {
        if let Ok(v) = eval::evaluated(on, interp::scope(done)) {
            interp::lemma_case_from(cases, 0, v, done);
            if let Some(k) = interp::case_from(cases, 0, v, done) {
                lemma_definite_case(cases, cases.len() as int, k);
                assert(decreases_to!(t => cases[k].1));
                lemma_definite_chosen(cases[k].1, id, done);
            }
        }
    }
}

// ---------------------------------------------------------------------------
// The same with more data
// ---------------------------------------------------------------------------

/// The second frame differs from the first in `more` bytes after the data, and
/// in that types may perhaps go further into one another.
spec fn longer(root: TypeModel, c: FrameModel, l: FrameModel, more: nat) -> bool {
    &&& definite(root)
    &&& nesting::linked(root, c.chain)
    &&& l.chain == c.chain
    &&& l.endian == c.endian
    &&& l.limit == c.limit
    &&& l.entry == c.entry + more
    &&& l.idle <= c.idle
}

proof fn lemma_longer_nested(
    root: TypeModel,
    c: FrameModel,
    l: FrameModel,
    name: Seq<char>,
    len: Option<usize>,
    endian: Endian,
    id: Seq<char>,
    b: Seq<u8>,
    x: Seq<u8>,
    p: nat,
)
    requires
        longer(root, c, l, x.len()),
        p <= b.len(),
        read::left(b, p) <= c.entry,
        interp::nested(name, len, c, endian, id, b, p) is Ok,
    ensures
        interp::nested(name, len, l, endian, id, b + x, p) == interp::nested(
            name,
            len,
            c,
            endian,
            id,
            b,
            p,
        ),
    decreases c.entry, interp::slack(c), 0nat, 0nat,
{
    nesting::lemma_linked(root, c.chain, name);
    let k = interp::level_of(c.chain, name)->0;
    match len {
        None => {
            let inner = interp::entered(c, k, name, endian, read::left(b, p))->Ok_0;
            let inner_l = interp::entered(l, k, name, endian, read::left(b + x, p))->Ok_0;
            assert(read::left(b + x, p) == read::left(b, p) + x.len());
            lemma_longer_fields(root, inner, inner_l, 0, Seq::empty(), b, x, p);
        },
        Some(n) => {
            let s = b.subrange(p as int, p + n);
            assert((b + x).subrange(p as int, p + n) =~= s);
            let inner = interp::entered(c, k, name, endian, n as nat)->Ok_0;
            let inner_l = interp::entered(l, k, name, endian, n as nat)->Ok_0;
            assert(inner_l == FrameModel { idle: inner_l.idle, ..inner });
            nesting::lemma_more_room(root, inner, inner_l.idle, s, 0);
        },
    }
}

proof fn lemma_longer_single(
    root: TypeModel,
    c: FrameModel,
    l: FrameModel,
    i: int,
    done: Entries,
    b: Seq<u8>,
    x: Seq<u8>,
    p: nat,
)
    requires
        longer(root, c, l, x.len()),
        p <= b.len(),
        read::left(b, p) <= c.entry,
        0 <= i < interp::members(c).len(),
        interp::single(c, i, done, b, p) is Ok,
    ensures
        interp::single(l, i, done, b + x, p) == interp::single(c, i, done, b, p),
    decreases c.entry, interp::slack(c), 5 * interp::to_come(c, i) + 1, 0nat,
{
    let f = interp::members(c)[i];
    lemma_definite_chain(root, c.chain, c.chain.len() - 1);
    assert(definite_field(f));
    if let Some(expected) = f.contents {
        lemma_longer_taken(b, x, p, expected.len(), f.id);
    } else {
        let len = interp::given_size(f, done, read::left(b, p))->Ok_0;
        let endian = match f.endian_override {
            Some(endian) => endian,
            None => c.endian,
        };
        if let Some(n) = len {
            lemma_longer_taken(b, x, p, n as nat, f.id);
        }
        if let Some(t) = f.type_spec {
            lemma_definite_chosen(t, f.id, done);
            match interp::chosen(t, f.id, done) {
                Ok(ChosenModel::Primitive(prim)) => {
                    if let Some(n) = schema::byte_size(prim) {
                        lemma_longer_taken(b, x, p, n as nat, f.id);
                    }
                },
                Ok(ChosenModel::Named(name)) => {
                    lemma_longer_nested(root, c, l, name, len, endian, f.id, b, x, p);
                },
                Err(_) => {},
            }
        }
    }
}

proof fn lemma_longer_taken(b: Seq<u8>, x: Seq<u8>, p: nat, n: nat, id: Seq<char>)
    ensures
        read::taken(b, p, n, id) is Ok ==> read::taken(b + x, p, n, id) == read::taken(
            b,
            p,
            n,
            id,
        ),
{
    if p + n <= b.len() {
        assert((b + x).subrange(p as int, (p + n) as int) =~= b.subrange(
            p as int,
            (p + n) as int,
        ));
    }
}

proof fn lemma_longer_repeated(
    root: TypeModel,
    c: FrameModel,
    l: FrameModel,
    i: int,
    done: Entries,
    count: nat,
    items: Seq<ValueModel>,
    b: Seq<u8>,
    x: Seq<u8>,
    p: nat,
)
    requires
        longer(root, c, l, x.len()),
        p <= b.len(),
        read::left(b, p) <= c.entry,
        0 <= i < interp::members(c).len(),
        interp::repeated(c, i, done, count, items, b, p) is Ok,
    ensures
        interp::repeated(l, i, done, count, items, b + x, p) == interp::repeated(
            c,
            i,
            done,
            count,
            items,
            b,
            p,
        ),
    decreases c.entry, interp::slack(c), 5 * interp::to_come(c, i) + 2, count,
{
    if count > 0 {
        lemma_longer_single(root, c, l, i, done, b, x, p);
        interp::lemma_single_within(c, i, done, b, p);
        let (v, n) = interp::single(c, i, done, b, p)->Ok_0;
        lemma_longer_repeated(
            root,
            c,
            l,
            i,
            done,
            (count - 1) as nat,
            items.push(v),
            b,
            x,
            p + n,
        );
    }
}

proof fn lemma_longer_until(
    root: TypeModel,
    c: FrameModel,
    l: FrameModel,
    i: int,
    done: Entries,
    cond: ExprModel,
    items: Seq<ValueModel>,
    b: Seq<u8>,
    x: Seq<u8>,
    p: nat,
)
    requires
        longer(root, c, l, x.len()),
        p <= b.len(),
        read::left(b, p) <= c.entry,
        0 <= i < interp::members(c).len(),
        interp::until(c, i, done, cond, items, b, p) is Ok,
    ensures
        interp::until(l, i, done, cond, items, b + x, p) == interp::until(
            c,
            i,
            done,
            cond,
            items,
            b,
            p,
        ),
    decreases c.entry, interp::slack(c), 5 * interp::to_come(c, i) + 2, read::left(b, p),
{
    lemma_longer_single(root, c, l, i, done, b, x, p);
    interp::lemma_single_within(c, i, done, b, p);
    let (v, n) = interp::single(c, i, done, b, p)->Ok_0;
    if p + n < b.len() && n > 0 && interp::until(c, i, done, cond, items.push(v), b, p + n) is Ok {
        lemma_longer_until(root, c, l, i, done, cond, items.push(v), b, x, p + n);
    }
}

proof fn lemma_longer_occurrences(
    root: TypeModel,
    c: FrameModel,
    l: FrameModel,
    i: int,
    done: Entries,
    b: Seq<u8>,
    x: Seq<u8>,
    p: nat,
)
    requires
        longer(root, c, l, x.len()),
        p <= b.len(),
        read::left(b, p) <= c.entry,
        0 <= i < interp::members(c).len(),
        interp::occurrences(c, i, done, b, p) is Ok,
    ensures
        interp::occurrences(l, i, done, b + x, p) == interp::occurrences(c, i, done, b, p),
    decreases c.entry, interp::slack(c), 5 * interp::to_come(c, i) + 3, 0nat,
{
    lemma_definite_chain(root, c.chain, c.chain.len() - 1);
    assert(definite_field(interp::members(c)[i]));
    match interp::members(c)[i].repeat {
        None => {
            lemma_longer_single(root, c, l, i, done, b, x, p);
        },
        Some(RepeatModel::Expr(e)) => {
            let count = eval::measured(e, interp::scope(done))->Ok_0;
            lemma_longer_repeated(root, c, l, i, done, count as nat, Seq::empty(), b, x, p);
        },
        Some(RepeatModel::Eos) => {},
        Some(RepeatModel::Until(e)) => {
            lemma_longer_until(root, c, l, i, done, e, Seq::empty(), b, x, p);
        },
    }
}

proof fn lemma_longer_fields(
    root: TypeModel,
    c: FrameModel,
    l: FrameModel,
    i: int,
    done: Entries,
    b: Seq<u8>,
    x: Seq<u8>,
    p: nat,
)
    requires
        longer(root, c, l, x.len()),
        p <= b.len(),
        read::left(b, p) <= c.entry,
        interp::fields_from(c, i, done, b, p) is Ok,
    ensures
        interp::fields_from(l, i, done, b + x, p) == interp::fields_from(c, i, done, b, p),
    decreases c.entry, interp::slack(c), 5 * interp::to_come(c, i) + 4, 0nat,
{
    if 0 <= i < interp::members(c).len() {
        match interp::skipped(c, i, done) {
            Ok(true) => {
                lemma_longer_fields(root, c, l, i + 1, done, b, x, p);
            },
            Ok(false) => {
                lemma_longer_occurrences(root, c, l, i, done, b, x, p);
                interp::lemma_occurrences_within(c, i, done, b, p);
                let (v, n) = interp::occurrences(c, i, done, b, p)->Ok_0;
                lemma_longer_fields(
                    root,
                    c,
                    l,
                    i + 1,
                    named::put_entry(done, interp::members(c)[i].id, v),
                    b,
                    x,
                    p + n,
                );
            },
            Err(_) => {},
        }
    }
}

/// Where nothing reads to the end of the data, bytes after the last field change
/// nothing.
pub proof fn law_bytes_after_the_last_field_change_nothing(
    root: TypeModel,
    endian: Endian,
    b: Seq<u8>,
    extra: Seq<u8>,
)
    requires
        definite(root),
        interp::decoded(root, endian, b) is Ok,
    ensures
        interp::decoded(root, endian, b + extra) == interp::decoded(root, endian, b),
{
    let limit = interp::nesting_limit(root);
    let c = interp::outermost(root, endian, b.len(), limit);
    let l = interp::outermost(root, endian, (b + extra).len(), limit);
    lemma_longer_fields(root, c, l, 0, Seq::empty(), b, extra, 0);
}

} // verus!
