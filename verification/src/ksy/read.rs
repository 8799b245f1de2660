//! Reading of bytes, numbers and strings.
use vstd::prelude::*;
use vstd::slice::slice_subrange;

use crate::error::Error;
use crate::float::widen;
use crate::ksy::eval::to_signed;
use crate::ksy::schema::{Endian, PrimType};
use crate::result::Value;
use crate::text::{chars_of, concat3, concat4, concat5, decimal_usize, utf8_text};
#[allow(unused_imports)]
use crate::{
    error, error::ErrorModel, float, ksy::eval, ksy::schema, result, result::ValueModel, text,
};

verus! {

// ---------------------------------------------------------------------------
// Bytes
// ---------------------------------------------------------------------------

/// How many bytes are left from a place on.
pub open spec fn left(b: Seq<u8>, p: nat) -> nat {
    if p < b.len() {
        (b.len() - p) as nat
    } else {
        0
    }
}

/// The next `n` bytes, for the field `id`.
pub open spec fn taken(b: Seq<u8>, p: nat, n: nat, id: Seq<char>) -> Result<Seq<u8>, ErrorModel> {
    if p + n > b.len() {
        Err(
            ErrorModel::Protocol(
                "unexpected end of data while reading field `"@ + id + "` ("@ + text::decimal(n)
                    + " bytes needed, "@ + text::decimal(left(b, p)) + " available)"@,
            ),
        )
    } else {
        Ok(b.subrange(p as int, (p + n) as int))
    }
}

/// A place in a string of bytes.
pub struct Cursor<'a> {
    pub bytes: &'a [u8],
    pub pos: usize,
}

impl<'a> Cursor<'a> {
    pub open spec fn wf(self) -> bool {
        self.pos <= self.bytes@.len()
    }

    /// At the start of `bytes`.
    pub fn new(bytes: &'a [u8]) -> (r: Cursor<'a>)
        ensures
            r.bytes == bytes,
            r.pos == 0,
    {
        Cursor { bytes, pos: 0 }
    }

    pub fn remaining(&self) -> (r: usize)
        requires
            self.wf(),
        ensures
            r == left(self.bytes@, self.pos as nat),
    {
        self.bytes.len() - self.pos
    }

    /// Takes the next `n` bytes, for the field `id`.
    pub fn read(&mut self, n: usize, id: &str) -> (r: Result<&'a [u8], Error>)
        requires
            old(self).wf(),
        ensures
            final(self).wf(),
            final(self).bytes == old(self).bytes,
            match (r, taken(old(self).bytes@, old(self).pos as nat, n as nat, id@)) {
                (Ok(s), Ok(m)) => s@ == m && final(self).pos == old(self).pos + n,
                (Err(e), Err(m)) => e@ == m && final(self).pos == old(self).pos,
                _ => false,
            },
    {
        if n > self.remaining() {
            let mut message = concat5(
                "unexpected end of data while reading field `",
                id,
                "` (",
                decimal_usize(n).as_str(),
                " bytes needed, ",
            );
            message.append(decimal_usize(self.remaining()).as_str());
            message.append(" available)");
            return Err(Error::Protocol(message));
        }
        let size: usize = self.bytes.len();
        assert(self.pos + n <= size);
        let s = slice_subrange(self.bytes, self.pos, self.pos + n);
        self.pos = self.pos + n;
        Ok(s)
    }
}

// ---------------------------------------------------------------------------
// Numbers
// ---------------------------------------------------------------------------

/// The number whose digits to the base 256 are `b`, the highest first.
pub open spec fn big_endian(b: Seq<u8>) -> nat
    decreases b.len(),
{
    if b.len() == 0 {
        0
    } else {
        big_endian(b.drop_last()) * 256 + b.last() as nat
    }
}

/// The number that bytes stand for.
pub open spec fn unsigned(b: Seq<u8>, endian: Endian) -> nat {
    match endian {
        Endian::Big => big_endian(b),
        Endian::Little => big_endian(b.reverse()),
    }
}

/// A number below `modulus`, taken as one in two's complement.
pub open spec fn twos_complement(raw: nat, modulus: nat) -> int {
    if raw < modulus / 2 {
        raw as int
    } else {
        raw - modulus
    }
}

/// The value of a number of a type with a fixed size.
pub open spec fn numeric(prim: PrimType, b: Seq<u8>, endian: Endian) -> ValueModel {
    let raw = unsigned(b, endian);
    match prim {
        PrimType::U1 | PrimType::U2 | PrimType::U4 | PrimType::U8 => ValueModel::UnsignedInteger(
            raw as u64,
        ),
        PrimType::S1 => ValueModel::Integer(twos_complement(raw, 0x100) as i64),
        PrimType::S2 => ValueModel::Integer(twos_complement(raw, 0x1_0000) as i64),
        PrimType::S4 => ValueModel::Integer(twos_complement(raw, 0x1_0000_0000) as i64),
        PrimType::S8 => ValueModel::Integer(twos_complement(raw, 0x1_0000_0000_0000_0000) as i64),
        PrimType::F4 => ValueModel::Float(float::widened(raw as u32)),
        PrimType::F8 => ValueModel::Float(raw as u64),
        PrimType::Str | PrimType::StrZ => ValueModel::Null,
    }
}

/// Two hundred and fifty-six to the power of `n`.
spec fn limit(n: nat) -> nat
    decreases n,
{
    if n == 0 {
        1
    } else {
        256 * limit((n - 1) as nat)
    }
}

proof fn lemma_limits()
    ensures
        limit(0) == 1,
        limit(1) == 0x100,
        limit(2) == 0x1_0000,
        limit(3) == 0x100_0000,
        limit(4) == 0x1_0000_0000,
        limit(5) == 0x100_0000_0000,
        limit(6) == 0x1_0000_0000_0000,
        limit(7) == 0x100_0000_0000_0000,
        limit(8) == 0x1_0000_0000_0000_0000,
{
    reveal_with_fuel(limit, 9);
}

proof fn lemma_big_endian_bound(b: Seq<u8>)
    ensures
        big_endian(b) < limit(b.len()),
    decreases b.len(),
{
    if b.len() > 0 {
        lemma_big_endian_bound(b.drop_last());
    }
}

/// The number that at most eight bytes stand for.
fn raw_number(b: &[u8], endian: Endian) -> (r: u64)
    requires
        b@.len() <= 8,
    ensures
        r == unsigned(b@, endian),
        r < limit(b@.len()),
{
    let n: usize = b.len();
    let ghost digits = match endian {
        Endian::Big => b@,
        Endian::Little => b@.reverse(),
    };
    let mut acc: u64 = 0;
    let mut i: usize = 0;
    assert(digits.take(0) =~= Seq::<u8>::empty());
    while i < n
        invariant
            n == b@.len() <= 8,
            i <= n,
            digits == (match endian {
                Endian::Big => b@,
                Endian::Little => b@.reverse(),
            }),
            acc == big_endian(digits.take(i as int)),
        decreases n - i,
    {
        let ghost longer = digits.take(i + 1);
        proof {
            assert(longer.drop_last() =~= digits.take(i as int));
            assert(longer.last() == digits[i as int]);
            lemma_big_endian_bound(longer);
            lemma_limits();
            assert(limit(longer.len()) <= limit(8));
        }
        let d: u8 = match endian {
            Endian::Big => b[i],
            Endian::Little => b[n - 1 - i],
        };
        acc = acc * 256 + d as u64;
        i = i + 1;
    }
    proof {
        assert(digits.take(i as int) =~= digits);
        lemma_big_endian_bound(digits);
    }
    acc
}

/// Reads a number of a type with a fixed size out of as many bytes.
pub fn read_number(prim: PrimType, b: &[u8], endian: Endian) -> (r: Value)
    requires
        schema::byte_size(prim) is Some,
        b@.len() == schema::byte_size(prim)->0,
    ensures
        r@ == numeric(prim, b@, endian),
{
    let raw: u64 = raw_number(b, endian);
    proof {
        lemma_limits();
    }
    let r = match prim {
        PrimType::U1 | PrimType::U2 | PrimType::U4 | PrimType::U8 => Value::UnsignedInteger(raw),
        PrimType::S1 => Value::Integer(
            if raw < 0x80 {
                raw as i64
            } else {
                raw as i64 - 0x100
            },
        ),
        PrimType::S2 => Value::Integer(
            if raw < 0x8000 {
                raw as i64
            } else {
                raw as i64 - 0x1_0000
            },
        ),
        PrimType::S4 => Value::Integer(
            if raw < 0x8000_0000 {
                raw as i64
            } else {
                raw as i64 - 0x1_0000_0000
            },
        ),
        PrimType::S8 => Value::Integer(to_signed(raw)),
        PrimType::F4 => Value::Float(widen(raw as u32)),
        PrimType::F8 => Value::Float(raw),
        PrimType::Str | PrimType::StrZ => Value::Null,
    };
    proof {
        result::lemma_value_model(r);
    }
    r
}

// ---------------------------------------------------------------------------
// Strings
// ---------------------------------------------------------------------------

/// The encoding is ASCII, in whatever case it is written.
pub open spec fn names_ascii(encoding: Seq<char>) -> bool {
    &&& encoding.len() == 5
    &&& (encoding[0] == 'A' || encoding[0] == 'a')
    &&& (encoding[1] == 'S' || encoding[1] == 's')
    &&& (encoding[2] == 'C' || encoding[2] == 'c')
    &&& (encoding[3] == 'I' || encoding[3] == 'i')
    &&& (encoding[4] == 'I' || encoding[4] == 'i')
}

pub open spec fn all_ascii(b: Seq<u8>) -> bool {
    forall|i: int| 0 <= i < b.len() ==> #[trigger] b[i] < 0x80
}

/// The string that bytes stand for in an encoding: UTF-8, unless ASCII is asked
/// for.
pub open spec fn string_decoded(b: Seq<u8>, encoding: Option<Seq<char>>, id: Seq<char>) -> Result<
    Seq<char>,
    ErrorModel,
> {
    if encoding is Some && names_ascii(encoding->0) && !all_ascii(b) {
        Err(schema::field_error(id, "`: expected ASCII, found non-ASCII bytes"@, Seq::empty()))
    } else if vstd::utf8::valid_utf8(b) {
        Ok(vstd::utf8::decode_utf8(b))
    } else {
        Err(schema::field_error(id, "`: invalid string encoding: "@, text::utf8_error(b)))
    }
}

fn is_ascii_name(encoding: &str) -> (r: bool)
    ensures
        r == names_ascii(encoding@),
{
    let c = chars_of(encoding);
    c.len() == 5 && (c[0] == 'A' || c[0] == 'a') && (c[1] == 'S' || c[1] == 's') && (c[2] == 'C'
        || c[2] == 'c') && (c[3] == 'I' || c[3] == 'i') && (c[4] == 'I' || c[4] == 'i')
}

fn is_all_ascii(b: &[u8]) -> (r: bool)
    ensures
        r == all_ascii(b@),
{
    let mut i: usize = 0;
    while i < b.len()
        invariant
            i <= b@.len(),
            forall|k: int| 0 <= k < i ==> #[trigger] b@[k] < 0x80,
        decreases b@.len() - i,
    {
        if b[i] >= 0x80 {
            return false;
        }
        i = i + 1;
    }
    true
}

/// Decodes a string in an encoding, for the field `id`.
pub fn decode_string(b: &[u8], encoding: &Option<String>, id: &str) -> (r: Result<String, Error>)
    ensures
        error::outcome(r) == string_decoded(b@, error::seen(*encoding), id@),
{
    if let Some(e) = encoding {
        if is_ascii_name(e.as_str()) && !is_all_ascii(b) {
            let message = concat3("field `", id, "`: expected ASCII, found non-ASCII bytes");
            assert(message@ =~= "field `"@ + id@ + "`: expected ASCII, found non-ASCII bytes"@
                + Seq::<char>::empty());
            return Err(Error::Protocol(message));
        }
    }
    match utf8_text(b) {
        Ok(s) => Ok(s),
        Err(m) => Err(
            Error::Protocol(concat4("field `", id, "`: invalid string encoding: ", m.as_str())),
        ),
    }
}

/// How many bytes stand before the next zero byte, or before the end.
pub open spec fn before_nul(b: Seq<u8>, p: nat) -> nat
    decreases left(b, p),
{
    if p < b.len() && b[p as int] != 0 {
        1 + before_nul(b, p + 1)
    } else {
        0
    }
}

/// The place of the next zero byte, or the end.
pub fn find_nul(b: &[u8], start: usize) -> (r: usize)
    requires
        start <= b@.len(),
    ensures
        r == start + before_nul(b@, start as nat),
        r <= b@.len(),
{
    let mut i: usize = start;
    while i < b.len() && b[i] != 0
        invariant
            start <= i <= b@.len(),
            start + before_nul(b@, start as nat) == i + before_nul(b@, i as nat),
        decreases b@.len() - i,
    {
        i = i + 1;
    }
    i
}

// ---------------------------------------------------------------------------
// Laws
// ---------------------------------------------------------------------------

/// Turning the bytes round is the same as changing the byte order.
pub proof fn law_byte_orders_mirror_each_other(b: Seq<u8>)
    ensures
        unsigned(b.reverse(), Endian::Little) == unsigned(b, Endian::Big),
        unsigned(b.reverse(), Endian::Big) == unsigned(b, Endian::Little),
{
    assert(b.reverse().reverse() =~= b);
}

} // verus!
