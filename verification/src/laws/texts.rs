//! Texts of values, packets and events.
use vstd::prelude::*;

#[allow(unused_imports)]
use crate::{
    cli, cli::Mode, error, error::ErrorModel, filekind::FileKind, ksy::token, laws::tokens,
    pipeline::EventModel, render, render::FloatTable, render::FloatText, result::PacketModel,
    result::ValueModel, text,
};

verus! {

// ---------------------------------------------------------------------------
// Numerals
// ---------------------------------------------------------------------------

/// A numeral is made of decimal digits, stands for its number, and does not start
/// with a zero unless the number is zero.
pub proof fn law_numerals_are_the_shortest(n: nat)
    ensures
        text::decimal(n).len() > 0,
        forall|i: int|
            0 <= i < text::decimal(n).len() ==> '0' <= #[trigger] text::decimal(n)[i]
                && text::decimal(n)[i] <= '9',
        token::number(text::decimal(n), 10) == n,
        n > 0 ==> text::decimal(n)[0] != '0',
        n == 0 ==> text::decimal(n) == seq!['0'],
    decreases n,
{
    tokens::lemma_numeral(n);
    if n >= 10 {
        law_numerals_are_the_shortest(n / 10);
        assert(text::decimal(n)[0] == text::decimal(n / 10)[0]);
    }
}

/// A negative number has a minus sign before the numeral of its magnitude.
pub proof fn law_minus_signs(n: int)
    ensures
        n >= 0 ==> text::decimal_signed(n) == text::decimal(n as nat),
        n < 0 ==> text::decimal_signed(n)[0] == '-' && text::decimal_signed(n).drop_first()
            == text::decimal((-n) as nat),
{
    if n < 0 {
        assert(text::decimal_signed(n).drop_first() =~= text::decimal((-n) as nat));
    }
}

/// The place of a digit in the row from `0` to `f`.
pub open spec fn place(c: char) -> int {
    if '0' <= c && c <= '9' {
        c as int - 48
    } else {
        c as int - 87
    }
}

/// A digit of the row from `0` to `f`, with small letters.
pub open spec fn small_digit(c: char) -> bool {
    ('0' <= c && c <= '9') || ('a' <= c && c <= 'f')
}

/// A byte is shown by two digits with small letters, the first counting
/// sixteenfold.
pub proof fn law_bytes_are_shown_by_two_digits(b: u8)
    ensures
        text::hex_pair(b).len() == 2,
        small_digit(text::hex_pair(b)[0]),
        small_digit(text::hex_pair(b)[1]),
        16 * place(text::hex_pair(b)[0]) + place(text::hex_pair(b)[1]) == b,
{
}

// ---------------------------------------------------------------------------
// Lists
// ---------------------------------------------------------------------------

/// The texts one after the other with a separator between each two.
pub open spec fn separated(parts: Seq<Seq<char>>, by: Seq<char>) -> Seq<char>
    decreases parts.len(),
{
    if parts.len() == 0 {
        Seq::empty()
    } else if parts.len() == 1 {
        parts[0]
    } else {
        parts[0] + by + separated(parts.drop_first(), by)
    }
}

proof fn lemma_separated_back(parts: Seq<Seq<char>>, last: Seq<char>, by: Seq<char>)
    requires
        parts.len() > 0,
    ensures
        separated(parts.push(last), by) == separated(parts, by) + by + last,
    decreases parts.len(),
{
    let longer = parts.push(last);
    assert(longer.drop_first() =~= parts.drop_first().push(last));
    assert(longer[0] == parts[0]);
    if parts.len() == 1 {
        assert(parts.drop_first().push(last) =~= seq![last]);
        assert(separated(seq![last], by) == last);
    } else {
        lemma_separated_back(parts.drop_first(), last, by);
        assert(parts[0] + by + (separated(parts.drop_first(), by) + by + last) =~= parts[0] + by
            + separated(parts.drop_first(), by) + by + last);
    }
}

/// The texts of the elements.
pub open spec fn shown(a: Seq<ValueModel>, t: FloatTable) -> Seq<Seq<char>> {
    Seq::new(a.len(), |i: int| render::display_text(a[i], t))
}

/// The texts of the entries: the name, a colon and a space, the value.
pub open spec fn shown_entries(f: Seq<(Seq<char>, ValueModel)>, t: FloatTable) -> Seq<Seq<char>> {
    Seq::new(f.len(), |i: int| f[i].0 + seq![':', ' '] + render::display_text(f[i].1, t))
}

proof fn lemma_shown(a: Seq<ValueModel>, n: int, t: FloatTable)
    requires
        0 <= n <= a.len(),
    ensures
        render::display_items(a, n, t) == separated(shown(a, t).take(n), seq![',', ' ']),
    decreases n,
{
    reveal_strlit(", ");
    assert(", "@ =~= seq![',', ' ']);
    if n == 1 {
        assert(shown(a, t).take(1)[0] == render::display_text(a[0], t));
    } else if n > 1 {
        lemma_shown(a, n - 1, t);
        lemma_separated_back(shown(a, t).take(n - 1), shown(a, t)[n - 1], seq![',', ' ']);
        assert(shown(a, t).take(n - 1).push(shown(a, t)[n - 1]) =~= shown(a, t).take(n));
    }
}

proof fn lemma_shown_entries(f: Seq<(Seq<char>, ValueModel)>, n: int, t: FloatTable)
    requires
        0 <= n <= f.len(),
    ensures
        render::display_entries(f, n, t) == separated(shown_entries(f, t).take(n), seq![',', ' ']),
    decreases n,
{
    reveal_strlit(", ");
    reveal_strlit(": ");
    assert(", "@ =~= seq![',', ' ']);
    assert(": "@ =~= seq![':', ' ']);
    let all = shown_entries(f, t);
    if n == 1 {
        assert(all.take(1)[0] == all[0]);
    } else if n > 1 {
        lemma_shown_entries(f, n - 1, t);
        lemma_separated_back(all.take(n - 1), all[n - 1], seq![',', ' ']);
        assert(all.take(n - 1).push(all[n - 1]) =~= all.take(n));
    }
}

/// The texts of the bytes.
pub open spec fn shown_bytes(b: Seq<u8>) -> Seq<Seq<char>> {
    Seq::new(b.len(), |i: int| text::hex_pair(b[i]))
}

proof fn lemma_shown_bytes(b: Seq<u8>)
    ensures
        render::hex_bytes(b) == separated(shown_bytes(b), seq![' ']),
        render::hex_list(b) == separated(shown_bytes(b), seq![',', ' ']),
    decreases b.len(),
{
    reveal_strlit(", ");
    assert(", "@ =~= seq![',', ' ']);
    if b.len() == 1 {
        assert(shown_bytes(b)[0] == text::hex_pair(b[0]));
    } else if b.len() > 1 {
        lemma_shown_bytes(b.drop_last());
        lemma_separated_back(shown_bytes(b.drop_last()), text::hex_pair(b.last()), seq![' ']);
        lemma_separated_back(
            shown_bytes(b.drop_last()),
            text::hex_pair(b.last()),
            seq![',', ' '],
        );
        assert(shown_bytes(b.drop_last()).push(text::hex_pair(b.last())) =~= shown_bytes(b));
    }
}

/// A value is shown by its numeral, by `true`, `false` or `null`, or by its own
/// text; bytes by their digits with spaces between; an array by its elements in
/// square brackets and a struct by its entries in braces, with commas between.
pub proof fn law_how_values_are_shown(v: ValueModel, t: FloatTable)
    ensures
        match v {
            ValueModel::Integer(n) => render::display_text(v, t) == text::decimal_signed(n as int),
            ValueModel::UnsignedInteger(n) => render::display_text(v, t) == text::decimal(n as nat),
            ValueModel::Float(b) => render::display_text(v, t) == t[b].0,
            ValueModel::Boolean(b) => render::display_text(v, t) == (if b {
                seq!['t', 'r', 'u', 'e']
            } else {
                seq!['f', 'a', 'l', 's', 'e']
            }),
            ValueModel::Bytes(b) => render::display_text(v, t) == separated(
                shown_bytes(b),
                seq![' '],
            ),
            ValueModel::Str(s) => render::display_text(v, t) == s,
            ValueModel::Array(a) => render::display_text(v, t) == seq!['['] + separated(
                shown(a, t),
                seq![',', ' '],
            ) + seq![']'],
            ValueModel::Struct(f) => render::display_text(v, t) == seq!['{'] + separated(
                shown_entries(f, t),
                seq![',', ' '],
            ) + seq!['}'],
            ValueModel::Null => render::display_text(v, t) == seq!['n', 'u', 'l', 'l'],
        },
{
    reveal_strlit("true");
    reveal_strlit("false");
    reveal_strlit("null");
    reveal_strlit("[");
    reveal_strlit("]");
    reveal_strlit("{");
    reveal_strlit("}");
    match v {
        ValueModel::Boolean(b) => {
            if b {
                assert("true"@ =~= seq!['t', 'r', 'u', 'e']);
            } else {
                assert("false"@ =~= seq!['f', 'a', 'l', 's', 'e']);
            }
        },
        ValueModel::Bytes(b) => {
            lemma_shown_bytes(b);
        },
        ValueModel::Array(a) => {
            lemma_shown(a, a.len() as int, t);
            assert(shown(a, t).take(a.len() as int) =~= shown(a, t));
            assert("["@ =~= seq!['[']);
            assert("]"@ =~= seq![']']);
        },
        ValueModel::Struct(f) => {
            lemma_shown_entries(f, f.len() as int, t);
            assert(shown_entries(f, t).take(f.len() as int) =~= shown_entries(f, t));
            assert("{"@ =~= seq!['{']);
            assert("}"@ =~= seq!['}']);
        },
        ValueModel::Null => {
            assert("null"@ =~= seq!['n', 'u', 'l', 'l']);
        },
        _ => {},
    }
}

/// The texts of the elements, for messages.
pub open spec fn quoted(a: Seq<ValueModel>, t: FloatTable) -> Seq<Seq<char>> {
    Seq::new(a.len(), |i: int| render::debug_text(a[i], t))
}

/// The texts of the entries, for messages.
pub open spec fn quoted_entries(f: Seq<(Seq<char>, ValueModel)>, t: FloatTable) -> Seq<Seq<char>> {
    Seq::new(
        f.len(),
        |i: int| text::str_debug(f[i].0) + seq![':', ' '] + render::debug_text(f[i].1, t),
    )
}

/// The numerals of bytes.
pub open spec fn numerals(b: Seq<u8>) -> Seq<Seq<char>> {
    Seq::new(b.len(), |i: int| text::decimal(b[i] as nat))
}

proof fn lemma_quoted(a: Seq<ValueModel>, n: int, t: FloatTable)
    requires
        0 <= n <= a.len(),
    ensures
        render::debug_items(a, n, t) == separated(quoted(a, t).take(n), ", "@),
    decreases n,
{
    if n == 1 {
        assert(quoted(a, t).take(1)[0] == render::debug_text(a[0], t));
    } else if n > 1 {
        lemma_quoted(a, n - 1, t);
        lemma_separated_back(quoted(a, t).take(n - 1), quoted(a, t)[n - 1], ", "@);
        assert(quoted(a, t).take(n - 1).push(quoted(a, t)[n - 1]) =~= quoted(a, t).take(n));
    }
}

proof fn lemma_quoted_entries(f: Seq<(Seq<char>, ValueModel)>, n: int, t: FloatTable)
    requires
        0 <= n <= f.len(),
    ensures
        render::debug_entries(f, n, t) == separated(quoted_entries(f, t).take(n), ", "@),
    decreases n,
{
    reveal_strlit(": ");
    assert(": "@ =~= seq![':', ' ']);
    let all = quoted_entries(f, t);
    if n == 1 {
        assert(all.take(1)[0] == all[0]);
    } else if n > 1 {
        lemma_quoted_entries(f, n - 1, t);
        lemma_separated_back(all.take(n - 1), all[n - 1], ", "@);
        assert(all.take(n - 1).push(all[n - 1]) =~= all.take(n));
    }
}

proof fn lemma_numerals(b: Seq<u8>)
    ensures
        render::decimal_list(b) == separated(numerals(b), ", "@),
    decreases b.len(),
{
    if b.len() == 1 {
        assert(numerals(b)[0] == text::decimal(b[0] as nat));
    } else if b.len() > 1 {
        lemma_numerals(b.drop_last());
        lemma_separated_back(numerals(b.drop_last()), text::decimal(b.last() as nat), ", "@);
        assert(numerals(b.drop_last()).push(text::decimal(b.last() as nat)) =~= numerals(b));
    }
}

/// In a message a value is quoted by its kind and, in brackets, what it holds.
pub proof fn law_how_values_are_quoted(v: ValueModel, t: FloatTable)
    ensures
        match v {
            ValueModel::Integer(n) => render::debug_text(v, t) == "Integer("@
                + text::decimal_signed(n as int) + ")"@,
            ValueModel::UnsignedInteger(n) => render::debug_text(v, t) == "UnsignedInteger("@
                + text::decimal(n as nat) + ")"@,
            ValueModel::Float(b) => render::debug_text(v, t) == "Float("@ + t[b].1 + ")"@,
            ValueModel::Boolean(b) => render::debug_text(v, t) == "Boolean("@ + (if b {
                "true"@
            } else {
                "false"@
            }) + ")"@,
            ValueModel::Bytes(b) => render::debug_text(v, t) == "Bytes(["@ + separated(
                numerals(b),
                ", "@,
            ) + "])"@,
            ValueModel::Str(s) => render::debug_text(v, t) == "Str("@ + text::str_debug(s) + ")"@,
            ValueModel::Array(a) => render::debug_text(v, t) == "Array(["@ + separated(
                quoted(a, t),
                ", "@,
            ) + "])"@,
            ValueModel::Struct(f) => render::debug_text(v, t) == "Struct({"@ + separated(
                quoted_entries(f, t),
                ", "@,
            ) + "})"@,
            ValueModel::Null => render::debug_text(v, t) == "Null"@,
        },
{
    match v {
        ValueModel::Bytes(b) => {
            lemma_numerals(b);
        },
        ValueModel::Array(a) => {
            lemma_quoted(a, a.len() as int, t);
            assert(quoted(a, t).take(a.len() as int) =~= quoted(a, t));
        },
        ValueModel::Struct(f) => {
            lemma_quoted_entries(f, f.len() as int, t);
            assert(quoted_entries(f, t).take(f.len() as int) =~= quoted_entries(f, t));
        },
        _ => {},
    }
}

/// Of the texts that a list gives for a number the first counts; a number that is
/// not in the list has none.
pub proof fn law_the_first_text_of_a_number_counts(texts: Seq<FloatText>, bits: u64)
    ensures
        render::float_table(texts).contains_key(bits) == exists|i: int|
            0 <= i < texts.len() && (#[trigger] texts[i]).bits == bits,
        forall|i: int|
            0 <= i < texts.len() && (#[trigger] texts[i]).bits == bits && (forall|j: int|
                0 <= j < i ==> (#[trigger] texts[j]).bits != bits) ==> render::float_table(
                texts,
            )[bits] == (texts[i].display@, texts[i].debug@),
    decreases texts.len(),
{
    if texts.len() > 0 {
        let init = texts.drop_last();
        law_the_first_text_of_a_number_counts(init, bits);
        assert(forall|i: int| 0 <= i < init.len() ==> init[i] == texts[i]);
        if render::float_table(init).contains_key(bits) {
            let i = choose|i: int| 0 <= i < init.len() && (#[trigger] init[i]).bits == bits;
            assert(texts[i].bits == bits);
        }
        assert forall|i: int|
            0 <= i < texts.len() && (#[trigger] texts[i]).bits == bits && (forall|j: int|
                0 <= j < i ==> (#[trigger] texts[j]).bits != bits) implies render::float_table(
            texts,
        )[bits] == (texts[i].display@, texts[i].debug@) by {
            if i < init.len() {
                assert(init[i].bits == bits);
                assert forall|j: int| 0 <= j < i implies (#[trigger] init[j]).bits != bits by {
                    assert(texts[j].bits != bits);
                }
            } else {
                assert forall|j: int| 0 <= j < init.len() implies (#[trigger] init[j]).bits
                    != bits by {
                    assert(texts[j].bits != bits);
                }
            }
        }
    }
}

/// An error is told by its sort and its message; one about a value quotes it at
/// the end.
pub proof fn law_how_errors_are_told(e: ErrorModel, t: FloatTable)
    ensures
        match e {
            ErrorModel::Io(m) => error::error_text(e, t) == "IO error: "@ + m,
            ErrorModel::Regex(m) => error::error_text(e, t) == "Regex error: "@ + m,
            ErrorModel::HexDecode(m) => error::error_text(e, t) == "Hex decode error: "@ + m,
            ErrorModel::Protocol(m) => error::error_text(e, t) == "Protocol error: "@ + m,
            ErrorModel::ProtocolValue(m, v) => error::error_text(e, t) == error::error_text(
                ErrorModel::Protocol(m + render::debug_text(v, t)),
                t,
            ),
        },
{
}

// ---------------------------------------------------------------------------
// Order of names
// ---------------------------------------------------------------------------

/// One name comes before another where it has the lower character at the first
/// place at which they differ, or where the other goes on after all of it.
pub proof fn law_names_are_ordered_by_their_first_difference(a: Seq<char>, b: Seq<char>, k: int)
    requires
        0 <= k <= a.len(),
        k <= b.len(),
        forall|i: int| 0 <= i < k ==> #[trigger] a[i] == b[i],
        k < a.len() && k < b.len() ==> a[k] != b[k],
    ensures
        cli::precedes(a, b) == (k < b.len() && (k == a.len() || (a[k] as int) < b[k] as int)),
    decreases k,
{
    if k > 0 {
        assert(a[0] == b[0]);
        assert forall|i: int| 0 <= i < k - 1 implies #[trigger] a.drop_first()[i]
            == b.drop_first()[i] by {
            assert(a[i + 1] == b[i + 1]);
        }
        law_names_are_ordered_by_their_first_difference(a.drop_first(), b.drop_first(), k - 1);
    }
}

// ---------------------------------------------------------------------------
// Packets and events
// ---------------------------------------------------------------------------

/// The texts, each with a newline after it.
pub open spec fn lines(parts: Seq<Seq<char>>) -> Seq<char>
    decreases parts.len(),
{
    if parts.len() == 0 {
        Seq::empty()
    } else {
        parts[0].push('\n') + lines(parts.drop_first())
    }
}

proof fn lemma_lines_back(parts: Seq<Seq<char>>, last: Seq<char>)
    ensures
        lines(parts.push(last)) == lines(parts) + last.push('\n'),
    decreases parts.len(),
{
    let longer = parts.push(last);
    if parts.len() == 0 {
        reveal_with_fuel(lines, 2);
        assert(longer.drop_first() =~= Seq::<Seq<char>>::empty());
        assert(lines(longer) =~= last.push('\n'));
        assert(lines(parts) + last.push('\n') =~= last.push('\n'));
    } else {
        assert(longer.drop_first() =~= parts.drop_first().push(last));
        lemma_lines_back(parts.drop_first(), last);
        assert(lines(longer) =~= lines(parts) + last.push('\n'));
    }
}

proof fn lemma_ended_lines(parts: Seq<Seq<char>>, n: int)
    requires
        0 <= n <= parts.len(),
    ensures
        cli::ended_lines(parts, n) == lines(parts.take(n)),
    decreases n,
{
    if n > 0 {
        lemma_ended_lines(parts, n - 1);
        lemma_lines_back(parts.take(n - 1), parts[n - 1]);
        assert(parts.take(n - 1).push(parts[n - 1]) =~= parts.take(n));
        reveal_strlit("\n");
        assert("\n"@ =~= seq!['\n']);
        assert(cli::ended_lines(parts, n - 1) + parts[n - 1] + "\n"@ =~= cli::ended_lines(
            parts,
            n - 1,
        ) + parts[n - 1].push('\n'));
    }
}

/// A packet is printed as a heading with its number and the count of its bytes,
/// and a line for each field with its name and its value, in the order of the
/// names.
pub proof fn law_how_packets_are_printed(p: PacketModel, t: FloatTable)
    ensures
        cli::heading_text(p) == "packet #"@ + text::decimal(p.index as nat) + " ("@
            + text::decimal(p.raw_bytes.len()) + " bytes)"@,
        cli::packet_text(p, t) == "--- "@ + cli::heading_text(p) + " ---\n"@ + lines(
            shown_entries(cli::in_order(p.fields), t),
        ),
{
    let f = cli::in_order(p.fields);
    let parts = cli::field_lines(f, t);
    reveal_strlit(": ");
    assert(": "@ =~= seq![':', ' ']);
    assert(parts =~= shown_entries(f, t));
    lemma_ended_lines(parts, parts.len() as int);
    assert(parts.take(parts.len() as int) =~= parts);
}

/// Events are printed by their sort; each ends with a newline.
pub proof fn law_how_events_are_printed(e: EventModel, t: FloatTable)
    ensures
        match e {
            EventModel::Packet(p) => cli::event_text(e, t) == cli::packet_text(p, t),
            EventModel::Warning(w) => cli::event_text(e, t) == "warning: "@ + w + "\n"@,
            EventModel::Error(x) => cli::event_text(e, t) == "error: "@ + error::error_text(x, t)
                + "\n"@,
            EventModel::Done(n) => cli::event_text(e, t) == "done: "@ + text::decimal(n as nat)
                + " packet(s) found\n"@,
        },
{
}

// ---------------------------------------------------------------------------
// Modes
// ---------------------------------------------------------------------------

/// What is asked for counts; where it is left open, a binary file is taken as
/// binary and a text line by line. The outcome is never left open.
pub proof fn law_the_request_counts(requested: Mode, detected: FileKind)
    ensures
        requested != Mode::Auto ==> cli::settled(requested, detected) == requested,
        requested == Mode::Auto && detected == FileKind::Binary ==> cli::settled(
            requested,
            detected,
        ) == Mode::Binary,
        requested == Mode::Auto && detected == FileKind::Text ==> cli::settled(requested, detected)
            == Mode::Line,
        cli::settled(cli::settled(requested, detected), detected) == cli::settled(
            requested,
            detected,
        ),
{
}

/// Which ASCII characters are white space, and which letters and digits.
pub proof fn law_classes_of_ascii_characters(c: char)
    requires
        0 <= c as u32 <= 127,
    ensures
        text::whitespace(c) == (c == ' ' || c == '\t' || c == '\n' || c == '\r' || c as u32 == 11
            || c as u32 == 12),
        text::alphabetic(c) == ((65 <= c as u32 <= 90) || (97 <= c as u32 <= 122)),
        text::alphanumeric(c) == (text::alphabetic(c) || (48 <= c as u32 <= 57)),
{
}

} // verus!
