//! From bytes to named values, as a schema says.
use vstd::prelude::*;

#[allow(unused_imports)]
use crate::{
    decoder, error::ErrorModel, ksy::eval, ksy::eval::ScopeModel, ksy::expr::ExprModel,
    ksy::interp, ksy::interp::Decoded, ksy::interp::Entries, ksy::interp::FrameModel, ksy::read,
    ksy::schema, ksy::schema::Endian, ksy::schema::FieldModel, ksy::schema::PrimType,
    ksy::schema::RepeatModel, ksy::schema::SchemaModel, ksy::schema::TypeModel,
    ksy::schema::TypeSpecModel, named, result::PacketModel, result::ValueModel, text,
};

verus! {

// ---------------------------------------------------------------------------
// Bytes
// ---------------------------------------------------------------------------

/// Bytes are taken exactly where there are enough of them, and then those that
/// come next, in their order.
pub proof fn law_the_next_bytes_are_taken(b: Seq<u8>, p: nat, n: nat, id: Seq<char>)
    ensures
        (read::taken(b, p, n, id) is Ok) == (p + n <= b.len()),
        read::taken(b, p, n, id) matches Ok(s) ==> s.len() == n && forall|k: int|
            0 <= k < n ==> #[trigger] s[k] == b[p + k],
        p <= b.len() ==> read::left(b, p) + p == b.len(),
{
}

/// A string that ends with a zero byte ends before the first one, or with the
/// data.
pub proof fn law_strings_end_before_the_first_zero(b: Seq<u8>, p: nat)
    requires
        p <= b.len(),
    ensures
        ({
            let n = read::before_nul(b, p);
            &&& p + n <= b.len()
            &&& forall|k: int| p <= k < p + n ==> #[trigger] b[k] != 0
            &&& p + n < b.len() ==> b[(p + n) as int] == 0
        }),
    decreases b.len() - p,
{
    if p < b.len() && b[p as int] != 0 {
        law_strings_end_before_the_first_zero(b, p + 1);
    }
}

/// A text in capital letters, as far as it is of the letters of `ASCII`.
pub open spec fn capital(c: char) -> char {
    if c == 'a' {
        'A'
    } else if c == 's' {
        'S'
    } else if c == 'c' {
        'C'
    } else if c == 'i' {
        'I'
    } else {
        c
    }
}

/// A string has the characters that its bytes are the UTF-8 of. Bytes that are
/// not UTF-8 are an error; so are bytes from 128 on where the encoding is ASCII,
/// in capital letters or small.
pub proof fn law_strings_are_utf8(b: Seq<u8>, encoding: Option<Seq<char>>, id: Seq<char>)
    ensures
        ({
            let ascii = encoding is Some && encoding->0.len() == 5 && encoding->0.map_values(
                |c: char| capital(c),
            ) == seq!['A', 'S', 'C', 'I', 'I'];
            match read::string_decoded(b, encoding, id) {
                Ok(s) => {
                    &&& vstd::utf8::encode_utf8(s) == b
                    &&& ascii ==> forall|k: int| 0 <= k < b.len() ==> #[trigger] b[k] < 128
                },
                Err(_) => !vstd::utf8::valid_utf8(b) || (ascii && exists|k: int|
                    0 <= k < b.len() && #[trigger] b[k] >= 128),
            }
        }),
{
    if vstd::utf8::valid_utf8(b) {
        vstd::utf8::decode_utf8_encode_utf8(b);
    }
    if let Some(e) = encoding {
        let upper = e.map_values(|c: char| capital(c));
        let name = seq!['A', 'S', 'C', 'I', 'I'];
        if e.len() == 5 {
            assert(upper.len() == 5);
            assert(upper[0] == capital(e[0]) && upper[1] == capital(e[1]) && upper[2] == capital(
                e[2],
            ) && upper[3] == capital(e[3]) && upper[4] == capital(e[4]));
            assert(name[0] == 'A' && name[1] == 'S' && name[2] == 'C' && name[3] == 'I' && name[4]
                == 'I');
            if read::names_ascii(e) {
                assert(upper =~= name);
            }
            if upper == name {
                assert(read::names_ascii(e));
            }
        }
    }
}

// ---------------------------------------------------------------------------
// Fields
// ---------------------------------------------------------------------------

/// What an expression in a type sees: the fields before it.
pub open spec fn seeing(done: Entries) -> ScopeModel {
    ScopeModel { fields: done, current: None }
}

/// The fields of a type are read one after the other, each where the one before
/// it ended, and kept under their names. One whose condition does not hold is
/// passed over, without a byte.
pub proof fn law_fields_are_read_one_after_the_other(
    c: FrameModel,
    i: int,
    done: Entries,
    b: Seq<u8>,
    p: nat,
)
    requires
        c.chain.len() > 0,
        0 <= i < c.chain[c.chain.len() - 1].seq.len(),
    ensures
        ({
            let f = c.chain[c.chain.len() - 1].seq[i];
            let whole = interp::fields_from(c, i, done, b, p);
            let wanted = match f.if_cond {
                None => Ok::<bool, ErrorModel>(true),
                Some(e) => eval::holds(e, seeing(done)),
            };
            match wanted {
                Err(e) => whole == Err::<(Entries, nat), (ErrorModel, nat)>((e, 0)),
                Ok(false) => whole == interp::fields_from(c, i + 1, done, b, p),
                Ok(true) => match interp::occurrences(c, i, done, b, p) {
                    Err(e) => whole == Err::<(Entries, nat), (ErrorModel, nat)>(e),
                    Ok((v, n)) => match (
                        whole,
                        interp::fields_from(c, i + 1, named::put_entry(done, f.id, v), b, p + n),
                    ) {
                        (Ok((x, k)), Ok((y, m))) => x == y && k == n + m,
                        (Err((x, k)), Err((y, m))) => x == y && k == n + m,
                        _ => false,
                    },
                },
            }
        }),
{
}

/// After the last field nothing more is read.
pub proof fn law_nothing_is_read_after_the_last_field(
    c: FrameModel,
    done: Entries,
    b: Seq<u8>,
    p: nat,
)
    requires
        c.chain.len() > 0,
    ensures
        interp::fields_from(c, c.chain[c.chain.len() - 1].seq.len() as int, done, b, p) == Ok::<
            (Entries, nat),
            (ErrorModel, nat),
        >((done, 0)),
{
}

// ---------------------------------------------------------------------------
// Repetitions
// ---------------------------------------------------------------------------

/// Item `k` is what is read at its place, and the next place is where it ends.
pub open spec fn stands(
    c: FrameModel,
    i: int,
    done: Entries,
    b: Seq<u8>,
    items: Seq<ValueModel>,
    at: Seq<nat>,
    k: int,
) -> bool {
    at[k + 1] >= at[k] && interp::single(c, i, done, b, at[k]) == Ok::<
        (ValueModel, nat),
        (ErrorModel, nat),
    >((items[k], (at[k + 1] - at[k]) as nat))
}

/// Item `k` takes data.
pub open spec fn takes_data(at: Seq<nat>, k: int) -> bool {
    at[k] < at[k + 1]
}

/// The items stand one after the other: each where the one before it ended.
pub open spec fn laid(
    c: FrameModel,
    i: int,
    done: Entries,
    b: Seq<u8>,
    items: Seq<ValueModel>,
    at: Seq<nat>,
) -> bool {
    &&& at.len() == items.len() + 1
    &&& forall|k: int|
        0 <= k < items.len() ==> #[trigger] stands(c, i, done, b, items, at, k)
}

proof fn lemma_laid_more(
    c: FrameModel,
    i: int,
    done: Entries,
    b: Seq<u8>,
    items: Seq<ValueModel>,
    at: Seq<nat>,
    v: ValueModel,
    n: nat,
)
    requires
        laid(c, i, done, b, items, at),
        interp::single(c, i, done, b, at.last()) == Ok::<(ValueModel, nat), (ErrorModel, nat)>(
            (v, n),
        ),
    ensures
        laid(c, i, done, b, items.push(v), at.push(at.last() + n)),
{
    let more = items.push(v);
    let places = at.push(at.last() + n);
    assert forall|k: int| 0 <= k < more.len() implies #[trigger] stands(
        c,
        i,
        done,
        b,
        more,
        places,
        k,
    ) by {
        assert(places[k] == at[k]);
        if k < items.len() {
            assert(stands(c, i, done, b, items, at, k));
        }
    }
}

proof fn lemma_counted(
    c: FrameModel,
    i: int,
    done: Entries,
    count: nat,
    items: Seq<ValueModel>,
    at: Seq<nat>,
    b: Seq<u8>,
) -> (r: (Seq<ValueModel>, Seq<nat>))
    requires
        laid(c, i, done, b, items, at),
    ensures
        match interp::repeated(c, i, done, count, items, b, at.last()) {
            Ok((v, n)) => {
                &&& laid(c, i, done, b, r.0, r.1)
                &&& v == ValueModel::Array(r.0)
                &&& r.0.len() == items.len() + count
                &&& r.1[0] == at[0]
                &&& r.1.last() == at.last() + n
            },
            Err(_) => true,
        },
    decreases count,
{
    if count == 0 {
        (items, at)
    } else {
        match interp::single(c, i, done, b, at.last()) {
            Ok((v, n)) => {
                lemma_laid_more(c, i, done, b, items, at, v, n);
                lemma_counted(
                    c,
                    i,
                    done,
                    (count - 1) as nat,
                    items.push(v),
                    at.push(at.last() + n),
                    b,
                )
            },
            Err(_) => (items, at),
        }
    }
}

proof fn lemma_counted_back(
    c: FrameModel,
    i: int,
    done: Entries,
    k: int,
    items: Seq<ValueModel>,
    at: Seq<nat>,
    b: Seq<u8>,
)
    requires
        laid(c, i, done, b, items, at),
        0 <= k <= items.len(),
    ensures
        interp::repeated(c, i, done, (items.len() - k) as nat, items.take(k), b, at[k]) == Ok::<
            (ValueModel, nat),
            (ErrorModel, nat),
        >((ValueModel::Array(items), (at.last() - at[k]) as nat)),
        at[k] <= at.last(),
    decreases items.len() - k,
{
    if k < items.len() {
        lemma_counted_back(c, i, done, k + 1, items, at, b);
        assert(stands(c, i, done, b, items, at, k));
        assert(items.take(k).push(items[k]) =~= items.take(k + 1));
    } else {
        assert(items.take(k) =~= items);
    }
}

/// A field with a count is read that often: as many items as the count says,
/// one after the other. Where so many can be read, they are what comes out.
pub proof fn law_counted_fields_are_read_that_often(
    c: FrameModel,
    i: int,
    done: Entries,
    e: ExprModel,
    b: Seq<u8>,
    p: nat,
)
    requires
        c.chain.len() > 0,
        0 <= i < c.chain[c.chain.len() - 1].seq.len(),
        c.chain[c.chain.len() - 1].seq[i].repeat == Some(RepeatModel::Expr(e)),
    ensures
        match interp::occurrences(c, i, done, b, p) {
            Ok((v, n)) => eval::measured(e, seeing(done)) is Ok && exists|
                items: Seq<ValueModel>,
                at: Seq<nat>,
            | #[trigger]
                laid(c, i, done, b, items, at) && v == ValueModel::Array(items) && items.len()
                    == eval::measured(e, seeing(done))->Ok_0 && at[0] == p && at.last() == p + n,
            Err(_) => true,
        },
        forall|items: Seq<ValueModel>, at: Seq<nat>| #[trigger]
            laid(c, i, done, b, items, at) && eval::measured(e, seeing(done)) is Ok && items.len()
                == eval::measured(e, seeing(done))->Ok_0 && at[0] == p ==> interp::occurrences(
                c,
                i,
                done,
                b,
                p,
            ) == Ok::<(ValueModel, nat), (ErrorModel, nat)>(
                (ValueModel::Array(items), (at.last() - p) as nat),
            ),
{
    if let Ok(count) = eval::measured(e, seeing(done)) {
        let none = Seq::<ValueModel>::empty();
        let start = seq![p];
        assert(laid(c, i, done, b, none, start));
        assert(start.last() == p);
        let r = lemma_counted(c, i, done, count as nat, none, start, b);
        if interp::occurrences(c, i, done, b, p) is Ok {
            assert(laid(c, i, done, b, r.0, r.1));
        }
        assert forall|items: Seq<ValueModel>, at: Seq<nat>| #[trigger]
            laid(c, i, done, b, items, at) && items.len() == count && at[0]
                == p implies interp::occurrences(c, i, done, b, p) == Ok::<
            (ValueModel, nat),
            (ErrorModel, nat),
        >((ValueModel::Array(items), (at.last() - p) as nat)) by {
            lemma_counted_back(c, i, done, 0, items, at, b);
            assert(items.take(0) =~= none);
        }
    }
}

proof fn lemma_ended(
    c: FrameModel,
    i: int,
    done: Entries,
    items: Seq<ValueModel>,
    at: Seq<nat>,
    b: Seq<u8>,
) -> (r: (Seq<ValueModel>, Seq<nat>))
    requires
        laid(c, i, done, b, items, at),
        forall|k: int| 0 <= k < items.len() ==> #[trigger] at[k] < b.len(),
    ensures
        match interp::to_end(c, i, done, items, b, at.last()) {
            Ok((v, n)) => {
                &&& laid(c, i, done, b, r.0, r.1)
                &&& v == ValueModel::Array(r.0)
                &&& r.1[0] == at[0]
                &&& r.1.last() == at.last() + n
                &&& r.1.last() >= b.len()
                &&& forall|k: int| 0 <= k < r.0.len() ==> #[trigger] r.1[k] < b.len()
            },
            Err(_) => true,
        },
    decreases read::left(b, at.last()),
{
    if at.last() >= b.len() {
        (items, at)
    } else {
        match interp::single(c, i, done, b, at.last()) {
            Ok((v, n)) => {
                if n == 0 {
                    (items, at)
                } else {
                    lemma_laid_more(c, i, done, b, items, at, v, n);
                    let places = at.push(at.last() + n);
                    assert forall|k: int| 0 <= k < items.push(v).len() implies #[trigger] places[k]
                        < b.len() by {
                        assert(places[k] == at[k]);
                    }
                    lemma_ended(c, i, done, items.push(v), places, b)
                }
            },
            Err(_) => (items, at),
        }
    }
}

proof fn lemma_ended_back(
    c: FrameModel,
    i: int,
    done: Entries,
    k: int,
    items: Seq<ValueModel>,
    at: Seq<nat>,
    b: Seq<u8>,
)
    requires
        laid(c, i, done, b, items, at),
        0 <= k <= items.len(),
        at.last() >= b.len(),
        forall|j: int| 0 <= j < items.len() ==> #[trigger] at[j] < b.len(),
        forall|j: int| 0 <= j < items.len() ==> #[trigger] takes_data(at, j),
    ensures
        interp::to_end(c, i, done, items.take(k), b, at[k]) == Ok::<
            (ValueModel, nat),
            (ErrorModel, nat),
        >((ValueModel::Array(items), (at.last() - at[k]) as nat)),
        at[k] <= at.last(),
    decreases items.len() - k,
{
    if k < items.len() {
        lemma_ended_back(c, i, done, k + 1, items, at, b);
        assert(stands(c, i, done, b, items, at, k));
        assert(takes_data(at, k));
        assert(items.take(k).push(items[k]) =~= items.take(k + 1));
    } else {
        assert(items.take(k) =~= items);
    }
}

/// A field repeated to the end of the data is read as long as there is data,
/// item after item, and until there is none. Where items that take data can be
/// read so, they are what comes out.
pub proof fn law_fields_repeated_to_the_end_are_read_while_there_is_data(
    c: FrameModel,
    i: int,
    done: Entries,
    b: Seq<u8>,
    p: nat,
)
    requires
        c.chain.len() > 0,
        0 <= i < c.chain[c.chain.len() - 1].seq.len(),
        c.chain[c.chain.len() - 1].seq[i].repeat == Some(RepeatModel::Eos),
    ensures
        match interp::occurrences(c, i, done, b, p) {
            Ok((v, n)) => exists|items: Seq<ValueModel>, at: Seq<nat>| #[trigger]
                laid(c, i, done, b, items, at) && v == ValueModel::Array(items) && at[0] == p
                    && at.last() == p + n && at.last() >= b.len() && forall|k: int|
                    0 <= k < items.len() ==> #[trigger] at[k] < b.len(),
            Err(_) => true,
        },
        forall|items: Seq<ValueModel>, at: Seq<nat>| #[trigger]
            laid(c, i, done, b, items, at) && at[0] == p && at.last() >= b.len() && (forall|k: int|
                0 <= k < items.len() ==> #[trigger] at[k] < b.len()) && (forall|k: int|
                0 <= k < items.len() ==> #[trigger] takes_data(at, k)) ==> interp::occurrences(c, i, done, b, p) == Ok::<
                (ValueModel, nat),
                (ErrorModel, nat),
            >((ValueModel::Array(items), (at.last() - p) as nat)),
{
    let none = Seq::<ValueModel>::empty();
    let start = seq![p];
    assert(laid(c, i, done, b, none, start));
    assert(start.last() == p);
    let r = lemma_ended(c, i, done, none, start, b);
    if interp::occurrences(c, i, done, b, p) is Ok {
        assert(laid(c, i, done, b, r.0, r.1));
    }
    assert forall|items: Seq<ValueModel>, at: Seq<nat>| #[trigger]
        laid(c, i, done, b, items, at) && at[0] == p && at.last() >= b.len() && (forall|k: int|
            0 <= k < items.len() ==> #[trigger] at[k] < b.len()) && (forall|k: int|
            0 <= k < items.len() ==> #[trigger] takes_data(at, k)) implies interp::occurrences(c, i, done, b, p) == Ok::<
        (ValueModel, nat),
        (ErrorModel, nat),
    >((ValueModel::Array(items), (at.last() - p) as nat)) by {
        lemma_ended_back(c, i, done, 0, items, at, b);
        assert(items.take(0) =~= none);
    }
}

/// The condition holds of an item.
pub open spec fn stops(cond: ExprModel, done: Entries, v: ValueModel, answer: bool) -> bool {
    eval::holds(cond, (ScopeModel { fields: done, current: Some(v) })) == Ok::<bool, ErrorModel>(
        answer,
    )
}

proof fn lemma_stopped(
    c: FrameModel,
    i: int,
    done: Entries,
    cond: ExprModel,
    items: Seq<ValueModel>,
    at: Seq<nat>,
    b: Seq<u8>,
) -> (r: (Seq<ValueModel>, Seq<nat>))
    requires
        laid(c, i, done, b, items, at),
        forall|k: int| 0 <= k < items.len() ==> stops(cond, done, #[trigger] items[k], false),
    ensures
        match interp::until(c, i, done, cond, items, b, at.last()) {
            Ok((v, n)) => {
                &&& laid(c, i, done, b, r.0, r.1)
                &&& v == ValueModel::Array(r.0)
                &&& r.0.len() > 0
                &&& r.1[0] == at[0]
                &&& r.1.last() == at.last() + n
                &&& stops(cond, done, r.0.last(), true)
                &&& forall|k: int|
                    0 <= k < r.0.len() - 1 ==> stops(cond, done, #[trigger] r.0[k], false)
            },
            Err(_) => true,
        },
    decreases read::left(b, at.last()),
{
    match interp::single(c, i, done, b, at.last()) {
        Ok((v, n)) => {
            lemma_laid_more(c, i, done, b, items, at, v, n);
            let more = items.push(v);
            let places = at.push(at.last() + n);
            if stops(cond, done, v, false) && at.last() + n < b.len() && n > 0 {
                assert forall|k: int| 0 <= k < more.len() implies stops(
                    cond,
                    done,
                    #[trigger] more[k],
                    false,
                ) by {
                    if k < items.len() {
                        assert(more[k] == items[k]);
                    }
                }
                lemma_stopped(c, i, done, cond, more, places, b)
            } else {
                assert forall|k: int| 0 <= k < more.len() - 1 implies stops(
                    cond,
                    done,
                    #[trigger] more[k],
                    false,
                ) by {
                    assert(more[k] == items[k]);
                }
                (more, places)
            }
        },
        Err(_) => (items, at),
    }
}

proof fn lemma_stopped_back(
    c: FrameModel,
    i: int,
    done: Entries,
    cond: ExprModel,
    k: int,
    items: Seq<ValueModel>,
    at: Seq<nat>,
    b: Seq<u8>,
)
    requires
        laid(c, i, done, b, items, at),
        0 <= k < items.len(),
        stops(cond, done, items.last(), true),
        forall|j: int| 0 <= j < items.len() - 1 ==> stops(cond, done, #[trigger] items[j], false),
        forall|j: int| 0 <= j < items.len() ==> #[trigger] at[j] < b.len() || j == 0,
        forall|j: int| 0 <= j < items.len() - 1 ==> #[trigger] takes_data(at, j),
    ensures
        interp::until(c, i, done, cond, items.take(k), b, at[k]) == Ok::<
            (ValueModel, nat),
            (ErrorModel, nat),
        >((ValueModel::Array(items), (at.last() - at[k]) as nat)),
        at[k] <= at.last(),
    decreases items.len() - k,
{
    assert(items.take(k).push(items[k]) =~= items.take(k + 1));
    assert(stands(c, i, done, b, items, at, k));
    if k < items.len() - 1 {
        assert(stops(cond, done, items[k], false));
        assert(takes_data(at, k));
        assert(at[k + 1] < b.len());
        lemma_stopped_back(c, i, done, cond, k + 1, items, at, b);
    } else {
        assert(items.take(k + 1) =~= items);
    }
}

/// A field repeated until a condition holds is read up to the first item of which
/// it holds, with that item and no further. Where such items can be read, they
/// are what comes out.
pub proof fn law_fields_repeated_until_a_condition_stop_at_the_first_item_it_holds_of(
    c: FrameModel,
    i: int,
    done: Entries,
    cond: ExprModel,
    b: Seq<u8>,
    p: nat,
)
    requires
        c.chain.len() > 0,
        0 <= i < c.chain[c.chain.len() - 1].seq.len(),
        c.chain[c.chain.len() - 1].seq[i].repeat == Some(RepeatModel::Until(cond)),
    ensures
        match interp::occurrences(c, i, done, b, p) {
            Ok((v, n)) => exists|items: Seq<ValueModel>, at: Seq<nat>| #[trigger]
                laid(c, i, done, b, items, at) && v == ValueModel::Array(items) && items.len() > 0
                    && at[0] == p && at.last() == p + n && stops(cond, done, items.last(), true)
                    && forall|k: int|
                    0 <= k < items.len() - 1 ==> stops(cond, done, #[trigger] items[k], false),
            Err(_) => true,
        },
        forall|items: Seq<ValueModel>, at: Seq<nat>| #[trigger]
            laid(c, i, done, b, items, at) && items.len() > 0 && at[0] == p && stops(
                cond,
                done,
                items.last(),
                true,
            ) && (forall|k: int|
                0 <= k < items.len() - 1 ==> stops(cond, done, #[trigger] items[k], false)) && (
            forall|k: int| 0 <= k < items.len() ==> #[trigger] at[k] < b.len() || k == 0) && (
            forall|k: int| 0 <= k < items.len() - 1 ==> #[trigger] takes_data(at, k)) ==> interp::occurrences(c, i, done, b, p) == Ok::<
                (ValueModel, nat),
                (ErrorModel, nat),
            >((ValueModel::Array(items), (at.last() - p) as nat)),
{
    let none = Seq::<ValueModel>::empty();
    let start = seq![p];
    assert(laid(c, i, done, b, none, start));
    assert(start.last() == p);
    let r = lemma_stopped(c, i, done, cond, none, start, b);
    if interp::occurrences(c, i, done, b, p) is Ok {
        assert(laid(c, i, done, b, r.0, r.1));
    }
    assert forall|items: Seq<ValueModel>, at: Seq<nat>| #[trigger]
        laid(c, i, done, b, items, at) && items.len() > 0 && at[0] == p && stops(
            cond,
            done,
            items.last(),
            true,
        ) && (forall|k: int|
            0 <= k < items.len() - 1 ==> stops(cond, done, #[trigger] items[k], false)) && (forall|
            k: int,
        | 0 <= k < items.len() ==> #[trigger] at[k] < b.len() || k == 0) && (forall|k: int|
            0 <= k < items.len() - 1 ==> #[trigger] takes_data(at, k)) implies interp::occurrences(c, i, done, b, p) == Ok::<
        (ValueModel, nat),
        (ErrorModel, nat),
    >((ValueModel::Array(items), (at.last() - p) as nat)) by {
        lemma_stopped_back(c, i, done, cond, 0, items, at, b);
        assert(items.take(0) =~= none);
    }
}

/// A field without repetition is read once.
pub proof fn law_fields_without_repetition_are_read_once(
    c: FrameModel,
    i: int,
    done: Entries,
    b: Seq<u8>,
    p: nat,
)
    requires
        c.chain.len() > 0,
        c.chain[c.chain.len() - 1].seq[i].repeat is None,
    ensures
        interp::occurrences(c, i, done, b, p) == interp::single(c, i, done, b, p),
{
}

// ---------------------------------------------------------------------------
// Single values
// ---------------------------------------------------------------------------

/// A field with magic bytes is read exactly where these bytes come next, and is
/// these bytes.
pub proof fn law_magic_bytes_must_come_next(
    c: FrameModel,
    i: int,
    done: Entries,
    magic: Seq<u8>,
    b: Seq<u8>,
    p: nat,
)
    requires
        c.chain.len() > 0,
        c.chain[c.chain.len() - 1].seq[i].contents == Some(magic),
    ensures
        ({
            let there = p + magic.len() <= b.len() && forall|k: int|
                0 <= k < magic.len() ==> b[p + k] == #[trigger] magic[k];
            match interp::single(c, i, done, b, p) {
                Ok((v, n)) => there && v == ValueModel::Bytes(magic) && n == magic.len(),
                Err((e, n)) => !there && e is Protocol && n == (if p + magic.len() <= b.len() {
                    magic.len()
                } else {
                    0
                }),
            }
        }),
{
    if p + magic.len() <= b.len() {
        let next = b.subrange(p as int, (p + magic.len()) as int);
        if forall|k: int| 0 <= k < magic.len() ==> b[p + k] == #[trigger] magic[k] {
            assert(next =~= magic);
        } else {
            let k = choose|k: int| 0 <= k < magic.len() && b[p + k] != #[trigger] magic[k];
            assert(next[k] == b[p + k]);
            assert(next != magic);
        }
    }
}

/// The symbol of the field's enumeration stands in the place of a number that has
/// one; the enumeration of the current type counts before that of the root.
pub open spec fn named_by(v: ValueModel, w: ValueModel, f: FieldModel, c: FrameModel) -> bool {
    let own = c.chain[c.chain.len() - 1].enums;
    let outer = c.chain[0].enums;
    match f.enum_name {
        None => w == v,
        Some(name) => {
            let table = if named::find_entry(own, name) is Some {
                named::find_entry(own, name)
            } else {
                named::find_entry(outer, name)
            };
            match (v, table) {
                (ValueModel::Integer(n), Some(t)) => if t.contains_key(n) {
                    w == ValueModel::Str(t[n])
                } else {
                    w == v
                },
                (ValueModel::UnsignedInteger(n), Some(t)) => {
                    let m = (if n < 0x8000_0000_0000_0000 {
                        n as int
                    } else {
                        n - 0x1_0000_0000_0000_0000
                    }) as i64;
                    if t.contains_key(m) {
                        w == ValueModel::Str(t[m])
                    } else {
                        w == v
                    }
                },
                _ => w == v,
            }
        },
    }
}

/// A field without magic bytes is a value of its type, of the size that is given:
/// all the bytes that are left, or what the size comes to. Its byte order is its
/// own where it has one, else that around it.
pub proof fn law_a_field_is_a_value_of_its_type(
    c: FrameModel,
    i: int,
    done: Entries,
    b: Seq<u8>,
    p: nat,
)
    requires
        c.chain.len() > 0,
        c.chain[c.chain.len() - 1].seq[i].contents is None,
        p <= b.len() <= usize::MAX,
    ensures
        ({
            let f = c.chain[c.chain.len() - 1].seq[i];
            let order = if f.endian_override is Some {
                f.endian_override->0
            } else {
                c.endian
            };
            let length = if f.size_eos {
                Ok::<Option<usize>, ErrorModel>(Some((b.len() - p) as usize))
            } else if f.size is None {
                Ok(None)
            } else {
                match eval::measured(f.size->0, seeing(done)) {
                    Ok(n) => Ok(Some(n)),
                    Err(e) => Err(e),
                }
            };
            match length {
                Err(e) => interp::single(c, i, done, b, p) == Err::<
                    (ValueModel, nat),
                    (ErrorModel, nat),
                >((e, 0)),
                Ok(len) => match (
                    interp::typed(f.type_spec, len, f.encoding, c, order, f.id, done, b, p),
                    interp::single(c, i, done, b, p),
                ) {
                    (Ok((v, n)), Ok((w, m))) => n == m && named_by(v, w, f, c),
                    (Err(x), Err(y)) => x == y,
                    _ => false,
                },
            }
        }),
{
}

/// Without a type, a field of a given size is the bytes that come next.
pub proof fn law_raw_fields_are_the_next_bytes(
    len: Option<usize>,
    encoding: Option<Seq<char>>,
    c: FrameModel,
    endian: Endian,
    id: Seq<char>,
    done: Entries,
    b: Seq<u8>,
    p: nat,
)
    ensures
        match interp::typed(None, len, encoding, c, endian, id, done, b, p) {
            Ok((v, n)) => len is Some && n == len->0 && p + n <= b.len() && v == ValueModel::Bytes(
                b.subrange(p as int, (p + n) as int),
            ),
            Err((_, n)) => n == 0 && (len is None || p + len->0 > b.len()),
        },
{
}

/// A number takes as many bytes as its type has, whatever size is given, and is
/// the number of these bytes in the byte order.
pub proof fn law_numbers_take_the_bytes_of_their_type(
    prim: PrimType,
    len: Option<usize>,
    encoding: Option<Seq<char>>,
    c: FrameModel,
    endian: Endian,
    id: Seq<char>,
    done: Entries,
    b: Seq<u8>,
    p: nat,
)
    requires
        schema::byte_size(prim) is Some,
    ensures
        ({
            let size = schema::byte_size(prim)->0;
            match interp::typed(
                Some(TypeSpecModel::Primitive(prim)),
                len,
                encoding,
                c,
                endian,
                id,
                done,
                b,
                p,
            ) {
                Ok((v, n)) => n == size && p + size <= b.len() && v == read::numeric(
                    prim,
                    b.subrange(p as int, p + size),
                    endian,
                ),
                Err((_, n)) => n == 0 && p + size > b.len(),
            }
        }),
{
}

/// A string of a given size takes so many bytes and is what they are the UTF-8 of.
/// One that ends with a zero byte takes the bytes before the next one, and that
/// byte too where there is one.
pub proof fn law_strings_take_their_bytes(
    len: Option<usize>,
    encoding: Option<Seq<char>>,
    c: FrameModel,
    endian: Endian,
    id: Seq<char>,
    done: Entries,
    b: Seq<u8>,
    p: nat,
)
    requires
        p <= b.len(),
    ensures
        match interp::typed(
            Some(TypeSpecModel::Primitive(PrimType::Str)),
            len,
            encoding,
            c,
            endian,
            id,
            done,
            b,
            p,
        ) {
            Ok((ValueModel::Str(s), n)) => len is Some && n == len->0 && p + n <= b.len()
                && vstd::utf8::encode_utf8(s) == b.subrange(p as int, (p + n) as int),
            Ok(_) => false,
            Err(_) => len is None || p + len->0 > b.len() || read::string_decoded(
                b.subrange(p as int, p + len->0),
                encoding,
                id,
            ) is Err,
        },
        ({
            let k = read::before_nul(b, p);
            match interp::typed(
                Some(TypeSpecModel::Primitive(PrimType::StrZ)),
                len,
                encoding,
                c,
                endian,
                id,
                done,
                b,
                p,
            ) {
                Ok((ValueModel::Str(s), n)) => {
                    &&& vstd::utf8::encode_utf8(s) == b.subrange(p as int, (p + k) as int)
                    &&& n == (if p + k < b.len() {
                        k + 1
                    } else {
                        k
                    })
                },
                Ok(_) => false,
                Err(_) => read::string_decoded(
                    b.subrange(p as int, (p + k) as int),
                    encoding,
                    id,
                ) is Err,
            }
        }),
{
    law_strings_end_before_the_first_zero(b, p);
    let k = read::before_nul(b, p);
    law_strings_are_utf8(b.subrange(p as int, (p + k) as int), encoding, id);
    if let Some(n) = len {
        if p + n <= b.len() {
            law_strings_are_utf8(b.subrange(p as int, p + n), encoding, id);
        }
    }
}

// ---------------------------------------------------------------------------
// Nested types
// ---------------------------------------------------------------------------

/// A definition of the name is there.
pub open spec fn knows(t: TypeModel, name: Seq<char>) -> bool {
    exists|j: int| 0 <= j < t.types.len() && (#[trigger] t.types[j]).0 == name
}

proof fn lemma_knows(t: TypeModel, name: Seq<char>)
    ensures
        interp::defines(t, name) == knows(t, name),
{
    named::lemma_entry_index(t.types, name);
    if let Some(j) = named::entry_index(t.types, name) {
        assert(t.types[j].0 == name);
    }
}

proof fn lemma_outer(chain: Seq<TypeModel>, k: int, name: Seq<char>)
    requires
        k < chain.len(),
    ensures
        match interp::outer_level(chain, k, name) {
            Some(l) => 0 < l <= k && knows(chain[l], name) && forall|j: int|
                l < j <= k ==> !knows(#[trigger] chain[j], name),
            None => forall|j: int| 0 < j <= k ==> !knows(#[trigger] chain[j], name),
        },
    decreases k,
{
    if k > 0 {
        lemma_knows(chain[k], name);
        lemma_outer(chain, k - 1, name);
    }
}

/// A name of a type stands for the definition of the current type; where that has
/// none, for that of the root; where neither has one, for that of the innermost
/// type around. Where none of them has one, the name is unknown.
pub proof fn law_which_definition_a_name_stands_for(chain: Seq<TypeModel>, name: Seq<char>)
    requires
        chain.len() > 0,
    ensures
        match interp::level_of(chain, name) {
            Some(k) => {
                &&& 0 <= k < chain.len()
                &&& knows(chain[k], name)
                &&& knows(chain[chain.len() - 1], name) ==> k == chain.len() - 1
                &&& !knows(chain[chain.len() - 1], name) && knows(chain[0], name) ==> k == 0
                &&& !knows(chain[chain.len() - 1], name) && !knows(chain[0], name) ==> forall|j: int|
                    k < j < chain.len() ==> !knows(#[trigger] chain[j], name)
            },
            None => forall|j: int| 0 <= j < chain.len() ==> !knows(#[trigger] chain[j], name),
        },
{
    lemma_knows(chain[chain.len() - 1], name);
    lemma_knows(chain[0], name);
    lemma_outer(chain, chain.len() - 2, name);
}

/// A nested type without a size is read where the data stands, in the byte order
/// that its field asks for, inside the types around its definition; it takes what
/// its fields take. A name that is not known is an error, without a byte.
pub proof fn law_nested_types_are_read_in_place(
    name: Seq<char>,
    encoding: Option<Seq<char>>,
    c: FrameModel,
    endian: Endian,
    id: Seq<char>,
    done: Entries,
    b: Seq<u8>,
    p: nat,
)
    requires
        c.chain.len() > 0,
        p <= b.len(),
    ensures
        ({
            let r = interp::typed(
                Some(TypeSpecModel::Named(name)),
                None,
                encoding,
                c,
                endian,
                id,
                done,
                b,
                p,
            );
            match interp::level_of(c.chain, name) {
                None => r matches Err((e, n)) && e is Protocol && n == 0,
                Some(k) => match interp::entered(c, k, name, endian, (b.len() - p) as nat) {
                    Ok(inner) => {
                        &&& inner.endian == endian
                        &&& inner.chain.len() == k + 2
                        &&& forall|j: int| 0 <= j <= k ==> inner.chain[j] == #[trigger] c.chain[j]
                        &&& Some(inner.chain[k + 1]) == named::find_entry(c.chain[k].types, name)
                        &&& match (interp::fields_from(inner, 0, Seq::empty(), b, p), r) {
                            (Ok((f, n)), Ok((v, m))) => v == ValueModel::Struct(f) && n == m,
                            (Err(x), Err(y)) => x == y,
                            _ => false,
                        }
                    },
                    Err(e) => r == Err::<(ValueModel, nat), (ErrorModel, nat)>((e, 0)),
                },
            }
        }),
{
    law_which_definition_a_name_stands_for(c.chain, name);
    if let Some(k) = interp::level_of(c.chain, name) {
        lemma_knows(c.chain[k], name);
    }
}

// ---------------------------------------------------------------------------
// Packets
// ---------------------------------------------------------------------------

/// Decoding starts on the root type, with all of the data and the schema's byte
/// order, and what is left over is ignored.
pub proof fn law_decoding_starts_on_the_root(root: TypeModel, endian: Endian, b: Seq<u8>)
    ensures
        ({
            let c = FrameModel {
                chain: seq![root],
                endian,
                entry: b.len(),
                idle: 0,
                limit: interp::nesting_limit(root),
            };
            match (
                interp::fields_from(c, 0, Seq::empty(), b, 0),
                interp::decoded(root, endian, b),
            ) {
                (Ok((f, _)), Ok(g)) => f == g,
                (Err((x, _)), Err(y)) => x == y,
                _ => false,
            }
        }),
{
}

/// A packet keeps its number and its bytes. Its fields are those that the schema
/// gives them; a schema without fields gives all the bytes under `raw`.
pub proof fn law_packets_keep_number_and_bytes(s: SchemaModel, index: u64, bytes: Seq<u8>)
    ensures
        match decoder::packet(s, index, bytes) {
            Ok(p) => {
                &&& p.index == index
                &&& p.raw_bytes == bytes
                &&& s.root.seq.len() > 0 ==> interp::decoded(s.root, s.endian, bytes) == Ok::<
                    Entries,
                    ErrorModel,
                >(p.fields)
                &&& s.root.seq.len() == 0 ==> p.fields.len() == 1 && p.fields[0].0 == "raw"@
                    && p.fields[0].1 == ValueModel::Bytes(bytes)
            },
            Err(e) => s.root.seq.len() > 0 && interp::decoded(s.root, s.endian, bytes) == Err::<
                Entries,
                ErrorModel,
            >(e),
        },
{
}

/// A schema is made ready where its text is not blank and can be read.
pub proof fn law_blank_schemas_are_refused(source: Seq<char>)
    ensures
        match decoder::prepared(source) {
            Ok(s) => schema::schema_of(source) == Ok::<SchemaModel, ErrorModel>(s) && exists|i: int|
                0 <= i < source.len() && !text::whitespace(#[trigger] source[i]),
            Err(e) => schema::schema_of(source) == Err::<SchemaModel, ErrorModel>(e) || forall|
                i: int,
            |
                0 <= i < source.len() ==> text::whitespace(#[trigger] source[i]),
        },
{
}

/// A nested type may always be entered once bytes were taken since the last type
/// was, and otherwise as long as fewer types than allowed are inside one another;
/// there are allowed two for each definition.
pub proof fn law_when_nested_types_are_entered(
    c: FrameModel,
    k: int,
    name: Seq<char>,
    endian: Endian,
    size: nat,
)
    ensures
        match interp::entered(c, k, name, endian, size) {
            Ok(f) => {
                &&& f.limit == c.limit
                &&& f.entry <= size || f.entry == c.entry
                &&& size < c.entry ==> f.entry == size && f.idle == 0
                &&& size >= c.entry ==> f.entry == c.entry && f.idle == c.idle + 1 && c.idle + 1
                    < c.limit
            },
            Err(_) => size >= c.entry && c.idle + 1 >= c.limit || c.limit == 0,
        },
{
}

/// Among the definitions of a type are itself, those directly inside it, and all
/// that are among theirs.
pub proof fn law_how_many_definitions_there_are(t: TypeModel, i: int)
    requires
        0 <= i < t.types.len(),
    ensures
        interp::type_count(t) >= 1 + t.types.len(),
        interp::type_count(t) > interp::type_count(t.types[i].1),
        2 * interp::type_count(t) <= usize::MAX ==> interp::nesting_limit(t) >= 2
            * interp::type_count(t),
{
    lemma_inner_count(t.types, t.types.len() as int, i);
}

proof fn lemma_inner_count(types: Seq<(Seq<char>, TypeModel)>, n: int, i: int)
    requires
        0 <= n <= types.len(),
    ensures
        interp::inner_count(types, n) >= n,
        0 <= i < n ==> interp::inner_count(types, n) >= interp::type_count(types[i].1),
    decreases n,
{
    if n > 0 {
        lemma_inner_count(types, n - 1, i);
        assert(interp::type_count(types[n - 1].1) >= 1);
    }
}

/// The value falls under the case: the default takes all, and another case the
/// values that are equal to that of its expression.
pub open spec fn under_case(c: schema::CaseModel, v: ValueModel, done: Entries) -> bool {
    match c {
        schema::CaseModel::Default => true,
        schema::CaseModel::Value(e) => match eval::evaluated(e, seeing(done)) {
            Ok(w) => eval::combined(crate::ksy::expr::BinOp::Eq, w, v) == Ok::<
                ValueModel,
                ErrorModel,
            >(ValueModel::Boolean(true)),
            Err(_) => false,
        },
    }
}

/// A switch is what its first case is that the value falls under, and an error
/// where there is none.
pub proof fn law_the_first_case_counts(
    on: ExprModel,
    cases: Seq<(schema::CaseModel, TypeSpecModel)>,
    v: ValueModel,
    k: int,
    len: Option<usize>,
    encoding: Option<Seq<char>>,
    c: FrameModel,
    endian: Endian,
    id: Seq<char>,
    done: Entries,
    b: Seq<u8>,
    p: nat,
)
    requires
        eval::evaluated(on, seeing(done)) == Ok::<ValueModel, ErrorModel>(v),
        0 <= k <= cases.len(),
        forall|j: int| 0 <= j < k ==> !under_case((#[trigger] cases[j]).0, v, done),
        k < cases.len() ==> under_case(cases[k].0, v, done),
    ensures
        ({
            let r = interp::typed(
                Some(TypeSpecModel::Switch { on, cases }),
                len,
                encoding,
                c,
                endian,
                id,
                done,
                b,
                p,
            );
            if k < cases.len() {
                r == interp::typed(Some(cases[k].1), len, encoding, c, endian, id, done, b, p)
            } else {
                r is Err && r->Err_0.1 == 0
            }
        }),
{
    assert forall|j: int| 0 <= j < k implies !#[trigger] interp::falls_under(cases, j, v, done) by {
        assert(!under_case(cases[j].0, v, done));
    }
    interp::law_switches_take_their_first_case(
        on,
        cases,
        v,
        k,
        len,
        encoding,
        c,
        endian,
        id,
        done,
        b,
        p,
    );
}

/// A value under a new name comes last; one under a name that is there takes the
/// place of the old, and nothing else moves.
pub proof fn law_names_keep_their_places(f: Entries, name: Seq<char>, v: ValueModel)
    requires
        named::distinct_names(f),
    ensures
        ({
            let g = named::put_entry(f, name, v);
            &&& (forall|i: int| 0 <= i < f.len() ==> (#[trigger] f[i]).0 != name) ==> g == f.push(
                (name, v),
            )
            &&& forall|i: int|
                0 <= i < f.len() && (#[trigger] f[i]).0 == name ==> g == f.update(i, (name, v))
        }),
{
    named::lemma_entry_index(f, name);
    assert forall|i: int| 0 <= i < f.len() && (#[trigger] f[i]).0 == name implies named::put_entry(
        f,
        name,
        v,
    ) == f.update(i, (name, v)) by {
        named::lemma_entry_index_unique(f, name, i);
    }
}

/// What is found under a name is the value that stands there.
pub proof fn law_names_lead_to_their_values(f: Entries, name: Seq<char>)
    requires
        named::distinct_names(f),
    ensures
        forall|i: int|
            0 <= i < f.len() && (#[trigger] f[i]).0 == name ==> named::find_entry(f, name) == Some(
                f[i].1,
            ),
        (forall|i: int| 0 <= i < f.len() ==> (#[trigger] f[i]).0 != name) ==> named::find_entry(
            f,
            name,
        ) is None,
{
    named::lemma_entry_index(f, name);
    assert forall|i: int| 0 <= i < f.len() && (#[trigger] f[i]).0 == name implies named::find_entry(
        f,
        name,
    ) == Some(f[i].1) by {
        named::lemma_entry_index_unique(f, name, i);
    }
}

} // verus!
