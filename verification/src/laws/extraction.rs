//! From a line or a text to the bytes of its payloads.
use vstd::prelude::*;

#[allow(unused_imports)]
use crate::{
    error::ErrorModel, extractor, extractor::ExtractorModel, filekind, filekind::FileKind, hex,
    pipeline, text,
};

verus! {

// ---------------------------------------------------------------------------
// The payload of a line
// ---------------------------------------------------------------------------

/// With `n` matches the payload is what the payload group caught in the last of
/// them, for every `n`; without a match there is none.
pub proof fn law_the_last_match_counts(rows: Seq<Seq<Option<Seq<char>>>>, group: int)
    ensures
        rows.len() == 0 ==> extractor::last_caught(rows, group) is None,
        rows.len() > 0 && 0 <= group < rows[rows.len() - 1].len() ==> extractor::last_caught(
            rows,
            group,
        ) == rows[rows.len() - 1][group],
        rows.len() > 0 && !(0 <= group < rows[rows.len() - 1].len()) ==> extractor::last_caught(
            rows,
            group,
        ) is None,
{
}

/// Matches before the last one never change the payload, however many there are.
pub proof fn law_earlier_matches_change_nothing(
    earlier: Seq<Seq<Option<Seq<char>>>>,
    rows: Seq<Seq<Option<Seq<char>>>>,
    group: int,
)
    requires
        rows.len() > 0,
    ensures
        extractor::last_caught(earlier + rows, group) == extractor::last_caught(rows, group),
        extractor::last_caught(rows, group) == extractor::last_caught(seq![rows.last()], group),
{
    assert((earlier + rows).last() == rows.last());
    assert(seq![rows.last()].last() == rows.last());
}

// ---------------------------------------------------------------------------
// The payloads of a text
// ---------------------------------------------------------------------------

/// The payloads of matches `x` followed by matches `y` are those of `x` followed
/// by those of `y`.
pub proof fn law_payloads_follow_their_matches(
    x: Seq<Seq<Option<Seq<char>>>>,
    y: Seq<Seq<Option<Seq<char>>>>,
    group: int,
)
    ensures
        extractor::all_caught(x + y, group) == extractor::all_caught(x, group)
            + extractor::all_caught(y, group),
    decreases y.len(),
{
    if y.len() == 0 {
        assert(x + y =~= x);
        assert(extractor::all_caught(x, group) + extractor::all_caught(y, group)
            =~= extractor::all_caught(x, group));
    } else {
        law_payloads_follow_their_matches(x, y.drop_last(), group);
        assert((x + y).drop_last() =~= x + y.drop_last());
        assert((x + y).last() == y.last());
        assert(extractor::all_caught(x + y, group) =~= extractor::all_caught(x, group)
            + extractor::all_caught(y, group));
    }
}

/// A single match gives what the payload group caught, or nothing where the
/// group took no part.
pub proof fn law_a_match_gives_one_payload_at_most(row: Seq<Option<Seq<char>>>, group: int)
    requires
        0 <= group < row.len(),
    ensures
        extractor::all_caught(seq![row], group) == (match row[group] {
            Some(s) => seq![s],
            None => Seq::<Seq<char>>::empty(),
        }),
        extractor::all_caught(Seq::<Seq<Option<Seq<char>>>>::empty(), group) == Seq::<
            Seq<char>,
        >::empty(),
{
    let one = seq![row];
    assert(one.drop_last() =~= Seq::<Seq<Option<Seq<char>>>>::empty());
    assert(one.last() == row);
    assert(extractor::all_caught(one.drop_last(), group) =~= Seq::<Seq<char>>::empty());
    if let Some(s) = row[group] {
        assert(extractor::all_caught(one, group) =~= seq![s]);
    }
}

/// Where the payload group takes part in every match, there are as many payloads
/// as matches, and each is what the group caught in its match.
pub proof fn law_every_match_gives_its_payload(rows: Seq<Seq<Option<Seq<char>>>>, group: int)
    requires
        forall|i: int|
            0 <= i < rows.len() ==> 0 <= group < (#[trigger] rows[i]).len() && rows[i][group]
                is Some,
    ensures
        extractor::all_caught(rows, group).len() == rows.len(),
        forall|i: int|
            0 <= i < rows.len() ==> Some(#[trigger] extractor::all_caught(rows, group)[i])
                == rows[i][group],
    decreases rows.len(),
{
    if rows.len() > 0 {
        let init = rows.drop_last();
        assert forall|i: int| 0 <= i < init.len() implies 0 <= group < (#[trigger] init[i]).len()
            && init[i][group] is Some by {
            assert(init[i] == rows[i]);
        }
        law_every_match_gives_its_payload(init, group);
        assert(rows[rows.len() - 1][group] is Some);
    }
}

// ---------------------------------------------------------------------------
// The payload group
// ---------------------------------------------------------------------------

proof fn lemma_group(names: Seq<Option<Seq<char>>>, i: int, name: Seq<char>)
    requires
        0 <= i,
    ensures
        match extractor::group_from(names, i, name) {
            Some(k) => i <= k < names.len() && names[k] == Some(name),
            None => forall|k: int| i <= k < names.len() ==> #[trigger] names[k] != Some(name),
        },
    decreases names.len() - i,
{
    if i < names.len() && names[i] != Some(name) {
        lemma_group(names, i + 1, name);
    }
}

/// A group of the name is there.
pub open spec fn carries(names: Seq<Option<Seq<char>>>, name: Seq<char>) -> bool {
    exists|k: int| 0 <= k < names.len() && #[trigger] names[k] == Some(name)
}

/// The payload group is one named `hex`; where there is none, one named
/// `packet`, then `payload`, then `data`; where there is none of these, the last
/// group that is not the whole match.
pub proof fn law_the_payload_group(names: Seq<Option<Seq<char>>>)
    ensures
        match extractor::payload_group(names) {
            Some(g) => {
                &&& 0 <= g < names.len()
                &&& carries(names, "hex"@) ==> names[g] == Some("hex"@)
                &&& !carries(names, "hex"@) && carries(names, "packet"@) ==> names[g] == Some("packet"@)
                &&& !carries(names, "hex"@) && !carries(names, "packet"@) && carries(names, "payload"@)
                    ==> names[g] == Some("payload"@)
                &&& !carries(names, "hex"@) && !carries(names, "packet"@) && !carries(names, "payload"@)
                    && carries(names, "data"@) ==> names[g] == Some("data"@)
                &&& !carries(names, "hex"@) && !carries(names, "packet"@) && !carries(names, "payload"@)
                    && !carries(names, "data"@) ==> g == names.len() - 1 && g > 0
            },
            None => names.len() <= 1 && !carries(names, "hex"@) && !carries(names, "packet"@) && !carries(
                names,
                "payload"@,
            ) && !carries(names, "data"@),
        },
{
    lemma_group(names, 0, "hex"@);
    lemma_group(names, 0, "packet"@);
    lemma_group(names, 0, "payload"@);
    lemma_group(names, 0, "data"@);
    if extractor::group_from(names, 0, "hex"@) is Some {
        assert(names[extractor::group_from(names, 0, "hex"@)->0] == Some("hex"@));
    }
    if extractor::group_from(names, 0, "packet"@) is Some {
        assert(names[extractor::group_from(names, 0, "packet"@)->0] == Some("packet"@));
    }
    if extractor::group_from(names, 0, "payload"@) is Some {
        assert(names[extractor::group_from(names, 0, "payload"@)->0] == Some("payload"@));
    }
    if extractor::group_from(names, 0, "data"@) is Some {
        assert(names[extractor::group_from(names, 0, "data"@)->0] == Some("data"@));
    }
}

/// A pattern makes an extractor where the regular expression compiles and has a
/// group, and the extractor finds in a line what its payload group caught in the
/// last match of that pattern in that line.
pub proof fn law_extractors_search_with_their_pattern(pattern: Seq<char>, line: Seq<char>)
    ensures
        match extractor::extractor_for(pattern) {
            Ok(x) => {
                let rows = extractor::regex_matches(pattern, line);
                let g = extractor::payload_group(extractor::regex_groups(pattern));
                &&& extractor::regex_failure(pattern) is None
                &&& g is Some
                &&& rows.len() == 0 ==> extractor::payload_in(x, line) is None
                &&& rows.len() > 0 && 0 <= g->0 < rows[rows.len() - 1].len()
                    ==> extractor::payload_in(x, line) == rows[rows.len() - 1][g->0]
                &&& extractor::payloads_in(x, line) == extractor::all_caught(rows, g->0)
            },
            Err(ErrorModel::Regex(m)) => extractor::regex_failure(pattern) == Some(m)
                || extractor::payload_group(extractor::regex_groups(pattern)) is None,
            Err(_) => false,
        },
{
}

// ---------------------------------------------------------------------------
// Hexadecimal digits
// ---------------------------------------------------------------------------

/// A space, a tab, a newline or a carriage return.
pub open spec fn is_space(b: u8) -> bool {
    b == 32 || b == 9 || b == 10 || b == 13
}

/// One of the sixteen digits, in either case.
pub open spec fn is_hex(b: u8) -> bool {
    (48 <= b && b <= 57) || (65 <= b && b <= 70) || (97 <= b && b <= 102)
}

/// What remains of a payload without its spaces.
pub open spec fn unspaced(s: Seq<u8>) -> Seq<u8> {
    s.filter(|b: u8| !is_space(b))
}

/// What a digit counts: its place in the row of the sixteen digits.
pub open spec fn counts(b: u8) -> int {
    if b <= 57 {
        b - 48
    } else if b <= 70 {
        b - 55
    } else {
        b - 87
    }
}

pub(crate) proof fn lemma_unspaced(s: Seq<u8>)
    ensures
        (hex::first_invalid(s) is None) == (forall|i: int|
            0 <= i < s.len() ==> is_space(#[trigger] s[i]) || is_hex(s[i])),
        (hex::first_invalid(s) is None) ==> {
            &&& hex::digits(s).len() == unspaced(s).len()
            &&& forall|i: int|
                0 <= i < unspaced(s).len() ==> hex::digits(s)[i] == counts(
                    #[trigger] unspaced(s)[i],
                ) && is_hex(unspaced(s)[i])
        },
    decreases s.len(),
{
    reveal(Seq::filter);
    if s.len() > 0 {
        let init = s.drop_last();
        lemma_unspaced(init);
        assert(s =~= init.push(s.last()));
        assert(forall|i: int| 0 <= i < init.len() ==> init[i] == s[i]);
        assert(s[s.len() - 1] == s.last());
        if hex::first_invalid(s) is None {
            let u = unspaced(s);
            assert forall|i: int| 0 <= i < u.len() implies hex::digits(s)[i] == counts(
                #[trigger] u[i],
            ) && is_hex(u[i]) by {
                if i < unspaced(init).len() {
                    assert(u[i] == unspaced(init)[i]);
                }
            }
        }
    }
}

/// A payload decodes exactly when it is made of hexadecimal digits and white
/// space and the digits come in pairs. The bytes are the pairs in order, the
/// first digit of each counting sixteenfold.
pub proof fn law_pairs_of_digits_make_bytes(s: Seq<u8>)
    ensures
        (hex::decoded(s) is Ok) == {
            &&& forall|i: int| 0 <= i < s.len() ==> is_space(#[trigger] s[i]) || is_hex(s[i])
            &&& unspaced(s).len() % 2 == 0
        },
        hex::decoded(s) matches Ok(b) ==> {
            &&& 2 * b.len() == unspaced(s).len()
            &&& forall|i: int|
                0 <= i < b.len() ==> #[trigger] b[i] == 16 * counts(unspaced(s)[2 * i]) + counts(
                    unspaced(s)[2 * i + 1],
                )
        },
        hex::decoded(s) matches Err(e) ==> e is HexDecode,
{
    lemma_unspaced(s);
    if let Ok(b) = hex::decoded(s) {
        let d = hex::digits(s);
        let u = unspaced(s);
        assert forall|i: int| 0 <= i < b.len() implies #[trigger] b[i] == 16 * counts(u[2 * i])
            + counts(u[2 * i + 1]) by {
            assert(d[2 * i] == counts(u[2 * i]) && is_hex(u[2 * i]));
            assert(d[2 * i + 1] == counts(u[2 * i + 1]) && is_hex(u[2 * i + 1]));
        }
    }
}

/// Payloads that decode one by one decode together, to their bytes one after the
/// other.
pub proof fn law_payloads_decode_piece_by_piece(s: Seq<u8>, t: Seq<u8>)
    requires
        hex::decoded(s) is Ok,
        hex::decoded(t) is Ok,
    ensures
        hex::decoded(s + t) == Ok::<Seq<u8>, ErrorModel>(
            hex::decoded(s)->Ok_0 + hex::decoded(t)->Ok_0,
        ),
{
    let both = s + t;
    law_pairs_of_digits_make_bytes(s);
    law_pairs_of_digits_make_bytes(t);
    law_pairs_of_digits_make_bytes(both);
    Seq::filter_distributes_over_add(s, t, |b: u8| !is_space(b));
    assert(unspaced(both) == unspaced(s) + unspaced(t));
    assert forall|i: int| 0 <= i < both.len() implies is_space(#[trigger] both[i]) || is_hex(
        both[i],
    ) by {
        if i < s.len() {
            assert(both[i] == s[i]);
        } else {
            assert(both[i] == t[i - s.len()]);
        }
    }
    let b = hex::decoded(both)->Ok_0;
    let x = hex::decoded(s)->Ok_0;
    let y = hex::decoded(t)->Ok_0;
    assert forall|i: int| 0 <= i < b.len() implies #[trigger] b[i] == (x + y)[i] by {
        if i < x.len() {
            assert(x[i] == 16 * counts(unspaced(s)[2 * i]) + counts(unspaced(s)[2 * i + 1]));
        } else {
            let j = i - x.len();
            assert(y[j] == 16 * counts(unspaced(t)[2 * j]) + counts(unspaced(t)[2 * j + 1]));
            assert(unspaced(both)[2 * i] == unspaced(t)[2 * j]);
            assert(unspaced(both)[2 * i + 1] == unspaced(t)[2 * j + 1]);
        }
    }
    assert(b =~= x + y);
}

// ---------------------------------------------------------------------------
// Text and binary
// ---------------------------------------------------------------------------

/// A file is binary as soon as a zero byte stands anywhere in its start, or as
/// its start is not UTF-8; else it is text.
pub proof fn law_text_is_utf8_without_zero_bytes(sample: Seq<u8>)
    ensures
        (filekind::kind_of(sample) == FileKind::Text) == (vstd::utf8::valid_utf8(sample) && forall|
            i: int,
        |
            0 <= i < sample.len() ==> #[trigger] sample[i] != 0),
        filekind::kind_of(sample) == FileKind::Text || filekind::kind_of(sample)
            == FileKind::Binary,
{
}

} // verus!
