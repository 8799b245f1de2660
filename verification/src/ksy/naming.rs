//! Names in decoded values: none stands twice in a struct, at any depth.
use vstd::prelude::*;

#[allow(unused_imports)]
use crate::{
    ksy::eval, ksy::expr::ExprModel, ksy::interp, ksy::interp::ChosenModel, ksy::interp::Entries,
    ksy::interp::FrameModel, ksy::read, ksy::schema::Endian, ksy::schema::RepeatModel,
    ksy::schema::TypeModel, named, result, result::distinctly_named, result::ValueModel,
};

verus! {

proof fn lemma_single_named(c: FrameModel, i: int, done: Entries, b: Seq<u8>, p: nat)
    ensures
        match interp::single(c, i, done, b, p) {
            Ok((v, _)) => distinctly_named(v),
            Err(_) => true,
        },
    decreases c.entry, interp::slack(c), 5 * interp::to_come(c, i) + 1, 0nat,
{
    let f = interp::members(c)[i];
    if f.contents is None {
        if let Ok(len) = interp::given_size(f, done, read::left(b, p)) {
            let endian = match f.endian_override {
                Some(endian) => endian,
                None => c.endian,
            };
            if let Some(t) = f.type_spec {
                if let Ok(ChosenModel::Named(name)) = interp::chosen(t, f.id, done) {
                    if let Some(k) = interp::level_of(c.chain, name) {
                        let size = match len {
                            Some(n) => n as nat,
                            None => read::left(b, p),
                        };
                        if let Ok(inner) = interp::entered(c, k, name, endian, size) {
                            match len {
                                Some(n) => {
                                    let s = b.subrange(p as int, p + n);
                                    lemma_fields_named(inner, 0, Seq::empty(), s, 0);
                                },
                                None => {
                                    lemma_fields_named(inner, 0, Seq::empty(), b, p);
                                },
                            }
                        }
                    }
                }
            }
        }
    }
}

proof fn lemma_repeated_named(
    c: FrameModel,
    i: int,
    done: Entries,
    count: nat,
    items: Seq<ValueModel>,
    b: Seq<u8>,
    p: nat,
)
    requires
        distinctly_named(ValueModel::Array(items)),
    ensures
        match interp::repeated(c, i, done, count, items, b, p) {
            Ok((v, _)) => distinctly_named(v),
            Err(_) => true,
        },
    decreases c.entry, interp::slack(c), 5 * interp::to_come(c, i) + 2, count,
{
    if count > 0 {
        lemma_single_named(c, i, done, b, p);
        if let Ok((v, n)) = interp::single(c, i, done, b, p) {
            result::lemma_push_distinctly_named(items, items.len() as int, v);
            lemma_repeated_named(c, i, done, (count - 1) as nat, items.push(v), b, p + n);
        }
    }
}

proof fn lemma_to_end_named(
    c: FrameModel,
    i: int,
    done: Entries,
    items: Seq<ValueModel>,
    b: Seq<u8>,
    p: nat,
)
    requires
        distinctly_named(ValueModel::Array(items)),
    ensures
        match interp::to_end(c, i, done, items, b, p) {
            Ok((v, _)) => distinctly_named(v),
            Err(_) => true,
        },
    decreases c.entry, interp::slack(c), 5 * interp::to_come(c, i) + 2, read::left(b, p),
{
    if p < b.len() {
        lemma_single_named(c, i, done, b, p);
        if let Ok((v, n)) = interp::single(c, i, done, b, p) {
            if n > 0 {
                result::lemma_push_distinctly_named(items, items.len() as int, v);
                lemma_to_end_named(c, i, done, items.push(v), b, p + n);
            }
        }
    }
}

proof fn lemma_until_named(
    c: FrameModel,
    i: int,
    done: Entries,
    cond: ExprModel,
    items: Seq<ValueModel>,
    b: Seq<u8>,
    p: nat,
)
    requires
        distinctly_named(ValueModel::Array(items)),
    ensures
        match interp::until(c, i, done, cond, items, b, p) {
            Ok((v, _)) => distinctly_named(v),
            Err(_) => true,
        },
    decreases c.entry, interp::slack(c), 5 * interp::to_come(c, i) + 2, read::left(b, p),
{
    lemma_single_named(c, i, done, b, p);
    if let Ok((v, n)) = interp::single(c, i, done, b, p) {
        result::lemma_push_distinctly_named(items, items.len() as int, v);
        if n > 0 && p + n < b.len() {
            lemma_until_named(c, i, done, cond, items.push(v), b, p + n);
        }
    }
}

proof fn lemma_occurrences_named(c: FrameModel, i: int, done: Entries, b: Seq<u8>, p: nat)
    ensures
        match interp::occurrences(c, i, done, b, p) {
            Ok((v, _)) => distinctly_named(v),
            Err(_) => true,
        },
    decreases c.entry, interp::slack(c), 5 * interp::to_come(c, i) + 3, 0nat,
{
    match interp::members(c)[i].repeat {
        None => {
            lemma_single_named(c, i, done, b, p);
        },
        Some(RepeatModel::Expr(e)) => {
            if let Ok(count) = eval::measured(e, interp::scope(done)) {
                lemma_repeated_named(c, i, done, count as nat, Seq::empty(), b, p);
            }
        },
        Some(RepeatModel::Eos) => {
            lemma_to_end_named(c, i, done, Seq::empty(), b, p);
        },
        Some(RepeatModel::Until(e)) => {
            lemma_until_named(c, i, done, e, Seq::empty(), b, p);
        },
    }
}

proof fn lemma_fields_named(c: FrameModel, i: int, done: Entries, b: Seq<u8>, p: nat)
    requires
        distinctly_named(ValueModel::Struct(done)),
    ensures
        match interp::fields_from(c, i, done, b, p) {
            Ok((f, _)) => distinctly_named(ValueModel::Struct(f)),
            Err(_) => true,
        },
    decreases c.entry, interp::slack(c), 5 * interp::to_come(c, i) + 4, 0nat,
{
    if 0 <= i < interp::members(c).len() {
        match interp::skipped(c, i, done) {
            Ok(true) => {
                lemma_fields_named(c, i + 1, done, b, p);
            },
            Ok(false) => {
                lemma_occurrences_named(c, i, done, b, p);
                if let Ok((v, n)) = interp::occurrences(c, i, done, b, p) {
                    let id = interp::members(c)[i].id;
                    result::lemma_put_distinctly_named(done, id, v);
                    lemma_fields_named(c, i + 1, named::put_entry(done, id, v), b, p + n);
                }
            },
            Err(_) => {},
        }
    }
}

/// In what a type decodes to, no name stands twice in a struct, at any depth.
pub proof fn law_decoded_names_are_distinct(c: FrameModel, b: Seq<u8>, p: nat)
    ensures
        match interp::fields_from(c, 0, Seq::empty(), b, p) {
            Ok((f, _)) => distinctly_named(ValueModel::Struct(f)),
            Err(_) => true,
        },
{
    lemma_fields_named(c, 0, Seq::empty(), b, p);
}

/// The same of what bytes hold according to a root type, and of each of its
/// fields.
pub proof fn law_decoded_values_are_distinctly_named(root: TypeModel, endian: Endian, b: Seq<u8>)
    ensures
        match interp::decoded(root, endian, b) {
            Ok(f) => distinctly_named(ValueModel::Struct(f)) && forall|i: int|
                0 <= i < f.len() ==> distinctly_named(#[trigger] f[i].1),
            Err(_) => true,
        },
{
    let limit = interp::nesting_limit(root);
    law_decoded_names_are_distinct(interp::outermost(root, endian, b.len(), limit), b, 0);
    if let Ok(f) = interp::decoded(root, endian, b) {
        assert forall|i: int| 0 <= i < f.len() implies distinctly_named(#[trigger] f[i].1) by {
            result::lemma_entry_distinctly_named(f, f.len() as int, i);
        }
    }
}

} // verus!
