//! Decoding of hexadecimal payloads.
//!
//! White space (space, tab, newline, carriage return) is skipped; any other
//! character that is no hexadecimal digit is an error.
use vstd::prelude::*;

use crate::error::Error;
use crate::text::{concat2, debug_char};
#[allow(unused_imports)]
use crate::{error, error::ErrorModel, render, text};

verus! {

/// White space between the digits of a payload.
pub open spec fn blank(b: u8) -> bool {
    b == 0x20 || b == 0x09 || b == 0x0a || b == 0x0d
}

/// What a hexadecimal digit of either case is worth.
pub open spec fn digit_value(b: u8) -> Option<u8> {
    if 0x30 <= b <= 0x39 {
        Some((b - 0x30) as u8)
    } else if 0x61 <= b <= 0x66 {
        Some((b - 0x61 + 10) as u8)
    } else if 0x41 <= b <= 0x46 {
        Some((b - 0x41 + 10) as u8)
    } else {
        None
    }
}

/// The first byte that is neither a digit nor white space.
pub open spec fn first_invalid(s: Seq<u8>) -> Option<u8>
    decreases s.len(),
{
    if s.len() == 0 {
        None
    } else {
        match first_invalid(s.drop_last()) {
            Some(b) => Some(b),
            None => if !blank(s.last()) && digit_value(s.last()) is None {
                Some(s.last())
            } else {
                None
            },
        }
    }
}

/// The values of the digits, in order.
pub open spec fn digits(s: Seq<u8>) -> Seq<u8>
    decreases s.len(),
{
    if s.len() == 0 {
        Seq::empty()
    } else {
        match digit_value(s.last()) {
            Some(d) => digits(s.drop_last()).push(d),
            None => digits(s.drop_last()),
        }
    }
}

/// The bytes that pairs of digits stand for, the high half first.
pub open spec fn paired(d: Seq<u8>) -> Seq<u8> {
    Seq::new((d.len() / 2) as nat, |i: int| (d[2 * i] * 16 + d[2 * i + 1]) as u8)
}

/// What a payload decodes to.
pub open spec fn decoded(s: Seq<u8>) -> Result<Seq<u8>, ErrorModel> {
    match first_invalid(s) {
        Some(b) => Err(
            ErrorModel::HexDecode("invalid hex character: "@ + text::char_debug(b as char)),
        ),
        None => if digits(s).len() % 2 == 1 {
            Err(ErrorModel::HexDecode("odd number of hex digits"@))
        } else {
            Ok(paired(digits(s)))
        },
    }
}

proof fn lemma_first_invalid_stays(s: Seq<u8>, i: int, j: int)
    requires
        0 <= i <= j <= s.len(),
        first_invalid(s.take(i)) is Some,
    ensures
        first_invalid(s.take(j)) == first_invalid(s.take(i)),
    decreases j,
{
    if i < j {
        lemma_first_invalid_stays(s, i, j - 1);
        assert(s.take(j).drop_last() =~= s.take(j - 1));
    }
}

/// Decodes a hexadecimal payload.
pub fn decode(input: &str) -> (r: Result<Vec<u8>, Error>)
    ensures
        error::outcome(r) == decoded(vstd::utf8::encode_utf8(input@)),
{
    decode_bytes(input.as_bytes())
}

/// Decodes a hexadecimal payload given as bytes.
pub fn decode_bytes(input: &[u8]) -> (r: Result<Vec<u8>, Error>)
    ensures
        error::outcome(r) == decoded(input@),
{
    let mut out: Vec<u8> = Vec::new();
    let mut nibble: Option<u8> = None;
    let mut i: usize = 0;
    assert(input@.take(0) =~= Seq::<u8>::empty());
    while i < input.len()
        invariant
            i <= input@.len(),
            first_invalid(input@.take(i as int)) is None,
            digits(input@.take(i as int)).len() == 2 * out@.len() + (if nibble is Some { 1int } else { 0int }),
            forall|k: int| 0 <= k < digits(input@.take(i as int)).len() ==> #[trigger] digits(input@.take(i as int))[k] < 16,
            nibble matches Some(n) ==> n == digits(input@.take(i as int)).last() * 16,
            out@ == paired(digits(input@.take(i as int))),
        decreases input@.len() - i,
    {
        let b = input[i];
        let ghost before = digits(input@.take(i as int));
        proof {
            assert(input@.take(i + 1).drop_last() =~= input@.take(i as int));
            assert(input@.take(i + 1).last() == b);
        }
        let val: u8 = if 0x30 <= b && b <= 0x39 {
            b - 0x30
        } else if 0x61 <= b && b <= 0x66 {
            b - 0x61 + 10
        } else if 0x41 <= b && b <= 0x46 {
            b - 0x41 + 10
        } else if b == 0x20 || b == 0x09 || b == 0x0a || b == 0x0d {
            i = i + 1;
            continue;
        } else {
            proof {
                lemma_first_invalid_stays(input@, i + 1, input@.len() as int);
                assert(input@.take(input@.len() as int) =~= input@);
            }
            return Err(
                Error::HexDecode(
                    concat2("invalid hex character: ", debug_char(b as char).as_str()),
                ),
            );
        };
        let ghost after = before.push(val);
        match nibble {
            None => {
                nibble = Some(val * 16);
                assert(paired(after) =~= paired(before));
            },
            Some(hi) => {
                out.push(hi + val);
                nibble = None;
                assert(out@ =~= paired(after)) by {
                    assert forall|k: int| 0 <= k < paired(after).len() implies #[trigger] out@[k] == paired(after)[k] by {
                        if k < paired(before).len() {
                            assert(paired(before)[k] == (before[2 * k] * 16 + before[2 * k + 1]) as u8);
                            assert(after[2 * k] == before[2 * k]);
                            assert(after[2 * k + 1] == before[2 * k + 1]);
                        } else {
                            assert(after[2 * k] == before.last());
                        }
                    }
                }
            },
        }
        i = i + 1;
        assert(digits(input@.take(i as int)) == after);
    }
    assert(input@.take(i as int) =~= input@);
    if nibble.is_some() {
        return Err(Error::HexDecode("odd number of hex digits".to_owned()));
    }
    Ok(out)
}

// ---------------------------------------------------------------------------
// Laws
// ---------------------------------------------------------------------------

proof fn lemma_concat(a: Seq<u8>, b: Seq<u8>)
    ensures
        digits(a + b) == digits(a) + digits(b),
        first_invalid(a + b) == (match first_invalid(a) {
            Some(x) => Some(x),
            None => first_invalid(b),
        }),
    decreases b.len(),
{
    if b.len() == 0 {
        assert(a + b =~= a);
        assert(digits(a) + digits(b) =~= digits(a));
    } else {
        lemma_concat(a, b.drop_last());
        assert((a + b).drop_last() =~= a + b.drop_last());
        assert((a + b).last() == b.last());
        assert(digits(a + b) =~= digits(a) + digits(b));
    }
}

/// White space may stand anywhere in a payload without changing what it
/// decodes to.
pub proof fn law_white_space_is_skipped(a: Seq<u8>, w: u8, b: Seq<u8>)
    requires
        blank(w),
    ensures
        decoded(a + seq![w] + b) == decoded(a + b),
{
    reveal_with_fuel(digits, 2);
    reveal_with_fuel(first_invalid, 2);
    let one = seq![w];
    assert(one.drop_last() =~= Seq::<u8>::empty());
    assert(digits(one) =~= Seq::<u8>::empty());
    lemma_concat(a, one);
    lemma_concat(a + one, b);
    lemma_concat(a, b);
    assert(digits(a) + digits(one) =~= digits(a));
}

/// The case of the digits does not matter: payloads that agree but for the
/// case of their digits decode to the same bytes.
pub proof fn law_case_does_not_matter(s: Seq<u8>, t: Seq<u8>)
    requires
        s.len() == t.len(),
        forall|i: int|
            0 <= i < s.len() ==> #[trigger] s[i] == t[i] || (digit_value(s[i]) is Some
                && digit_value(s[i]) == digit_value(t[i])),
    ensures
        decoded(s) == decoded(t),
{
    lemma_same_digits(s, t);
}

proof fn lemma_same_digits(s: Seq<u8>, t: Seq<u8>)
    requires
        s.len() == t.len(),
        forall|i: int|
            0 <= i < s.len() ==> #[trigger] s[i] == t[i] || (digit_value(s[i]) is Some
                && digit_value(s[i]) == digit_value(t[i])),
    ensures
        digits(s) == digits(t),
        first_invalid(s) == first_invalid(t),
    decreases s.len(),
{
    if s.len() > 0 {
        assert(s[s.len() - 1] == t[s.len() - 1] || (digit_value(s[s.len() - 1]) is Some
            && digit_value(s[s.len() - 1]) == digit_value(t[s.len() - 1])));
        assert forall|i: int| 0 <= i < s.drop_last().len() implies #[trigger] s.drop_last()[i]
            == t.drop_last()[i] || (digit_value(s.drop_last()[i]) is Some && digit_value(
            s.drop_last()[i],
        ) == digit_value(t.drop_last()[i])) by {
            assert(s[i] == t[i] || (digit_value(s[i]) is Some && digit_value(s[i]) == digit_value(
                t[i],
            )));
        }
        lemma_same_digits(s.drop_last(), t.drop_last());
    }
}

/// The bytes of an ASCII text.
pub open spec fn ascii_bytes(s: Seq<char>) -> Seq<u8> {
    Seq::new(s.len(), |i: int| s[i] as u8)
}

proof fn lemma_digit_char(d: nat)
    requires
        d < 16,
    ensures
        (text::digit_char(d) as u32) < 128,
        digit_value(text::digit_char(d) as u8) == Some(d as u8),
{
}

proof fn lemma_hex_pair(b: u8)
    ensures
        digits(ascii_bytes(text::hex_pair(b))) == seq![(b / 16) as u8, (b % 16) as u8],
        first_invalid(ascii_bytes(text::hex_pair(b))) is None,
{
    reveal_with_fuel(digits, 2);
    reveal_with_fuel(first_invalid, 2);
    let s = ascii_bytes(text::hex_pair(b));
    lemma_digit_char((b / 16) as nat);
    lemma_digit_char((b % 16) as nat);
    let one = s.drop_last();
    assert(one.drop_last() =~= Seq::<u8>::empty());
    assert(digits(one) =~= seq![(b / 16) as u8]);
    assert(digits(s) =~= seq![(b / 16) as u8, (b % 16) as u8]);
    assert(first_invalid(one.drop_last()) is None);
    assert(first_invalid(one) is None);
}

proof fn lemma_shown_bytes(b: Seq<u8>)
    ensures
        first_invalid(ascii_bytes(render::hex_bytes(b))) is None,
        digits(ascii_bytes(render::hex_bytes(b))).len() == 2 * b.len(),
        forall|i: int|
            0 <= i < b.len() ==> digits(ascii_bytes(render::hex_bytes(b)))[2 * i] == #[trigger] b[i]
                / 16 && digits(ascii_bytes(render::hex_bytes(b)))[2 * i + 1] == b[i] % 16,
        vstd::utf8::is_ascii_chars(render::hex_bytes(b)),
    decreases b.len(),
{
    let s = render::hex_bytes(b);
    if b.len() == 0 {
    } else {
        let last = b.last();
        lemma_hex_pair(last);
        lemma_digit_char((last / 16) as nat);
        lemma_digit_char((last % 16) as nat);
        if b.len() == 1 {
            assert(s =~= text::hex_pair(b[0]));
        } else {
            let init = render::hex_bytes(b.drop_last());
            lemma_shown_bytes(b.drop_last());
            let gap = seq![' '];
            assert(ascii_bytes(s) =~= ascii_bytes(init) + ascii_bytes(gap) + ascii_bytes(
                text::hex_pair(last),
            ));
            reveal_with_fuel(digits, 2);
            reveal_with_fuel(first_invalid, 2);
            assert(ascii_bytes(gap).drop_last() =~= Seq::<u8>::empty());
            assert(digits(ascii_bytes(gap)) =~= Seq::<u8>::empty());
            assert(first_invalid(ascii_bytes(gap).drop_last()) is None);
            lemma_concat(ascii_bytes(init), ascii_bytes(gap));
            lemma_concat(
                ascii_bytes(init) + ascii_bytes(gap),
                ascii_bytes(text::hex_pair(last)),
            );
            let d = digits(ascii_bytes(s));
            assert(d =~= digits(ascii_bytes(init)) + seq![(last / 16) as u8, (last % 16) as u8]);
            assert forall|i: int| 0 <= i < b.len() implies d[2 * i] == #[trigger] b[i] / 16 && d[2
                * i + 1] == b[i] % 16 by {
                if i < b.len() - 1 {
                    assert(b.drop_last()[i] == b[i]);
                }
            }
        }
    }
}

/// The text in which bytes are shown decodes back to the bytes.
pub proof fn law_shown_bytes_decode_back(b: Seq<u8>)
    ensures
        decoded(vstd::utf8::encode_utf8(render::hex_bytes(b))) == Ok::<Seq<u8>, ErrorModel>(b),
{
    let s = render::hex_bytes(b);
    lemma_shown_bytes(b);
    vstd::utf8::is_ascii_chars_encode_utf8(s);
    assert(vstd::utf8::encode_utf8(s) =~= ascii_bytes(s));
    let d = digits(ascii_bytes(s));
    assert(paired(d) =~= b) by {
        assert forall|i: int| 0 <= i < b.len() implies #[trigger] paired(d)[i] == b[i] by {
            assert(d[2 * i] == b[i] / 16 && d[2 * i + 1] == b[i] % 16);
        }
    }
}

} // verus!
