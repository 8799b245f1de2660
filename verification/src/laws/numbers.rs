//! Numbers: how bytes, digits and operators make them.
#[allow(unused_imports)]
use vstd::arithmetic::power2;
use vstd::prelude::*;

#[allow(unused_imports)]
use crate::{
    error::ErrorModel, float, hex, ksy::eval, ksy::expr::BinOp, ksy::expr::ExprModel,
    ksy::expr::UnOp, ksy::read, ksy::schema, ksy::schema::Endian, ksy::schema::PrimType,
    result::ValueModel, text,
};

verus! {

// ---------------------------------------------------------------------------
// Numbers out of bytes
// ---------------------------------------------------------------------------

/// The byte of a number that counts 256 to the power of `k`.
pub open spec fn place(b: Seq<u8>, endian: Endian, k: int) -> int {
    if endian == Endian::Little {
        b[k] as int
    } else {
        b[b.len() - 1 - k] as int
    }
}

/// What one, two, four or eight bytes add up to, each by its weight.
pub open spec fn weighed(b: Seq<u8>, endian: Endian) -> int {
    if b.len() == 1 {
        place(b, endian, 0)
    } else if b.len() == 2 {
        place(b, endian, 0) + 0x100 * place(b, endian, 1)
    } else if b.len() == 4 {
        place(b, endian, 0) + 0x100 * place(b, endian, 1) + 0x1_0000 * place(b, endian, 2)
            + 0x100_0000 * place(b, endian, 3)
    } else {
        place(b, endian, 0) + 0x100 * place(b, endian, 1) + 0x1_0000 * place(b, endian, 2)
            + 0x100_0000 * place(b, endian, 3) + 0x1_0000_0000 * place(b, endian, 4)
            + 0x100_0000_0000 * place(b, endian, 5) + 0x1_0000_0000_0000 * place(b, endian, 6)
            + 0x100_0000_0000_0000 * place(b, endian, 7)
    }
}

proof fn lemma_big_endian_front(b: Seq<u8>, k: int)
    requires
        0 <= k < b.len(),
    ensures
        read::big_endian(b.take(k + 1)) == read::big_endian(b.take(k)) * 256 + b[k],
{
    assert(b.take(k + 1).drop_last() =~= b.take(k));
}

proof fn lemma_weighed(b: Seq<u8>, endian: Endian)
    requires
        b.len() == 1 || b.len() == 2 || b.len() == 4 || b.len() == 8,
    ensures
        read::unsigned(b, endian) == weighed(b, endian),
{
    let d = match endian {
        Endian::Big => b,
        Endian::Little => b.reverse(),
    };
    assert(d.take(0) =~= Seq::<u8>::empty());
    assert(d.take(d.len() as int) =~= d);
    lemma_big_endian_front(d, 0);
    if b.len() >= 2 {
        lemma_big_endian_front(d, 1);
    }
    if b.len() >= 4 {
        lemma_big_endian_front(d, 2);
        lemma_big_endian_front(d, 3);
    }
    if b.len() >= 8 {
        lemma_big_endian_front(d, 4);
        lemma_big_endian_front(d, 5);
        lemma_big_endian_front(d, 6);
        lemma_big_endian_front(d, 7);
    }
}

/// An unsigned number is the sum of its bytes, each by its weight: in the little
/// order the first byte counts least, in the big order the last.
pub proof fn law_unsigned_numbers_add_up_their_bytes(prim: PrimType, b: Seq<u8>, endian: Endian)
    requires
        prim == PrimType::U1 || prim == PrimType::U2 || prim == PrimType::U4 || prim
            == PrimType::U8,
        b.len() == (match prim {
            PrimType::U1 => 1nat,
            PrimType::U2 => 2nat,
            PrimType::U4 => 4nat,
            _ => 8nat,
        }),
    ensures
        match read::numeric(prim, b, endian) {
            ValueModel::UnsignedInteger(n) => n == weighed(b, endian),
            _ => false,
        },
{
    lemma_weighed(b, endian);
}

/// A signed number of `n` bytes is the one from `-2^(8n-1)` up to `2^(8n-1)` that
/// differs from the sum of its bytes by a multiple of `2^(8n)`. So its sign is
/// that of the top bit of the byte that counts most.
pub proof fn law_signed_numbers_are_in_twos_complement(prim: PrimType, b: Seq<u8>, endian: Endian)
    requires
        prim == PrimType::S1 || prim == PrimType::S2 || prim == PrimType::S4 || prim
            == PrimType::S8,
        b.len() == (match prim {
            PrimType::S1 => 1nat,
            PrimType::S2 => 2nat,
            PrimType::S4 => 4nat,
            _ => 8nat,
        }),
    ensures
        ({
            let modulus: int = match prim {
                PrimType::S1 => 0x100,
                PrimType::S2 => 0x1_0000,
                PrimType::S4 => 0x1_0000_0000,
                _ => 0x1_0000_0000_0000_0000,
            };
            match read::numeric(prim, b, endian) {
                ValueModel::Integer(v) => {
                    &&& -modulus <= 2 * v < modulus
                    &&& v == weighed(b, endian) || v == weighed(b, endian) - modulus
                    &&& (v - weighed(b, endian)) % modulus == 0
                    &&& (v < 0) == (place(b, endian, b.len() - 1) >= 0x80)
                },
                _ => false,
            }
        }),
{
    lemma_weighed(b, endian);
}

/// A double-precision number is the bit pattern that its bytes add up to; a
/// single-precision one is widened from it.
pub proof fn law_floats_are_their_bit_patterns(b: Seq<u8>, endian: Endian)
    ensures
        b.len() == 8 ==> match read::numeric(PrimType::F8, b, endian) {
            ValueModel::Float(bits) => bits == weighed(b, endian),
            _ => false,
        },
        b.len() == 4 ==> match read::numeric(PrimType::F4, b, endian) {
            ValueModel::Float(bits) => bits == float::widened(weighed(b, endian) as u32),
            _ => false,
        },
{
    if b.len() == 8 || b.len() == 4 {
        lemma_weighed(b, endian);
    }
}

/// The letter of a number's name says what kind it is, and the digit how many
/// bytes it has.
pub proof fn law_names_say_kind_and_size(name: Seq<char>, b: Seq<u8>, endian: Endian)
    requires
        schema::prim_type(name) is Some,
        schema::byte_size(schema::prim_type(name)->0) is Some,
    ensures
        name.len() == 2 || (name.len() == 4 && name[3] == 'e' && name[1] != '1'),
        schema::byte_size(schema::prim_type(name)->0)->0 == (if name[1] == '1' {
            1int
        } else if name[1] == '2' {
            2int
        } else if name[1] == '4' {
            4int
        } else {
            8int
        }),
        name[1] == '1' || name[1] == '2' || name[1] == '4' || name[1] == '8',
        name[0] == 'u' || name[0] == 's' || (name[0] == 'f' && (name[1] == '4' || name[1] == '8')),
        match read::numeric(schema::prim_type(name)->0, b, endian) {
            ValueModel::UnsignedInteger(_) => name[0] == 'u',
            ValueModel::Integer(_) => name[0] == 's',
            ValueModel::Float(_) => name[0] == 'f',
            _ => false,
        },
        name.len() == 4 ==> schema::type_endian(name) == (if name[2] == 'l' {
            Some(Endian::Little)
        } else {
            Some(Endian::Big)
        }) && (name[2] == 'l' || name[2] == 'b'),
        name.len() == 2 ==> schema::type_endian(name) is None,
{
    lemma_names();
}

proof fn lemma_names()
    ensures
        "u1"@ == seq!['u', '1'],
        "u2"@ == seq!['u', '2'],
        "u4"@ == seq!['u', '4'],
        "u8"@ == seq!['u', '8'],
        "s1"@ == seq!['s', '1'],
        "s2"@ == seq!['s', '2'],
        "s4"@ == seq!['s', '4'],
        "s8"@ == seq!['s', '8'],
        "f4"@ == seq!['f', '4'],
        "f8"@ == seq!['f', '8'],
        "u2le"@ == seq!['u', '2', 'l', 'e'],
        "u4le"@ == seq!['u', '4', 'l', 'e'],
        "u8le"@ == seq!['u', '8', 'l', 'e'],
        "s2le"@ == seq!['s', '2', 'l', 'e'],
        "s4le"@ == seq!['s', '4', 'l', 'e'],
        "s8le"@ == seq!['s', '8', 'l', 'e'],
        "f4le"@ == seq!['f', '4', 'l', 'e'],
        "f8le"@ == seq!['f', '8', 'l', 'e'],
        "u2be"@ == seq!['u', '2', 'b', 'e'],
        "u4be"@ == seq!['u', '4', 'b', 'e'],
        "u8be"@ == seq!['u', '8', 'b', 'e'],
        "s2be"@ == seq!['s', '2', 'b', 'e'],
        "s4be"@ == seq!['s', '4', 'b', 'e'],
        "s8be"@ == seq!['s', '8', 'b', 'e'],
        "f4be"@ == seq!['f', '4', 'b', 'e'],
        "f8be"@ == seq!['f', '8', 'b', 'e'],
        "str"@ == seq!['s', 't', 'r'],
        "strz"@ == seq!['s', 't', 'r', 'z'],
{
    reveal_strlit("u1");
    reveal_strlit("u2");
    reveal_strlit("u4");
    reveal_strlit("u8");
    reveal_strlit("s1");
    reveal_strlit("s2");
    reveal_strlit("s4");
    reveal_strlit("s8");
    reveal_strlit("f4");
    reveal_strlit("f8");
    reveal_strlit("u2le");
    reveal_strlit("u4le");
    reveal_strlit("u8le");
    reveal_strlit("s2le");
    reveal_strlit("s4le");
    reveal_strlit("s8le");
    reveal_strlit("f4le");
    reveal_strlit("f8le");
    reveal_strlit("u2be");
    reveal_strlit("u4be");
    reveal_strlit("u8be");
    reveal_strlit("s2be");
    reveal_strlit("s4be");
    reveal_strlit("s8be");
    reveal_strlit("f4be");
    reveal_strlit("f8be");
    reveal_strlit("str");
    reveal_strlit("strz");
}

/// There are these names of numbers and no others: a letter and a digit, and for
/// more than one byte a suffix or none. Strings are `str` and `strz`.
pub proof fn law_names_of_primitive_types(name: Seq<char>)
    ensures
        (schema::prim_type(name) is Some) == {
            ||| name == "str"@
            ||| name == "strz"@
            ||| {
                &&& name.len() == 2 || (name.len() == 4 && (name[2] == 'l' || name[2] == 'b')
                    && name[3] == 'e' && name[1] != '1')
                &&& name[0] == 'u' || name[0] == 's' || (name[0] == 'f' && name[1] != '1'
                    && name[1] != '2')
                &&& name[1] == '1' || name[1] == '2' || name[1] == '4' || name[1] == '8'
            }
        },
        schema::prim_type("str"@) == Some(PrimType::Str),
        schema::prim_type("strz"@) == Some(PrimType::StrZ),
        schema::byte_size(PrimType::Str) is None,
        schema::byte_size(PrimType::StrZ) is None,
        schema::prim_type(name) is None ==> schema::type_endian(name) is None,
{
    lemma_names();
    assert("strz"@[3] == 'z' && "strz"@.len() == 4 && "str"@.len() == 3);
    assert("u2le"@[3] == 'e' && "u4le"@[3] == 'e'
        && "u8le"@[3] == 'e' && "s2le"@[3] == 'e');
    assert("s4le"@[3] == 'e' && "s8le"@[3] == 'e'
        && "f4le"@[3] == 'e' && "f8le"@[3] == 'e');
    assert("u2be"@[3] == 'e' && "u4be"@[3] == 'e'
        && "u8be"@[3] == 'e' && "s2be"@[3] == 'e');
    assert("s4be"@[3] == 'e' && "s8be"@[3] == 'e'
        && "f4be"@[3] == 'e' && "f8be"@[3] == 'e');
    if name.len() == 2 {
        assert(name =~= seq![name[0], name[1]]);
    } else if name.len() == 4 {
        assert(name =~= seq![name[0], name[1], name[2], name[3]]);
    }
}

// ---------------------------------------------------------------------------
// Single precision
// ---------------------------------------------------------------------------

/// A single-precision number that is infinite or no number stays so, with its
/// sign; what is no number becomes quiet and keeps the other bits of its
/// fraction.
pub proof fn law_widening_of_what_is_not_finite(b: u32)
    requires
        (b / 0x80_0000) % 256 == 255,
    ensures
        float::widened(b) / 0x8000_0000_0000_0000 == b / 0x8000_0000,
        (float::widened(b) / 0x10_0000_0000_0000) % 2048 == 2047,
        (b % 0x80_0000 == 0) == (float::widened(b) % 0x10_0000_0000_0000 == 0),
        b % 0x80_0000 != 0 ==> (float::widened(b) % 0x10_0000_0000_0000) == 0x8_0000_0000_0000 + (b
            % 0x40_0000) * 0x2000_0000,
{
}

/// Widening keeps the value of a normal number: the exponent is moved by the
/// difference of the biases, and the fraction filled up with zeros.
pub proof fn law_widening_of_normal_numbers(b: u32)
    requires
        0 < (b / 0x80_0000) % 256 < 255,
    ensures
        float::widened(b) / 0x8000_0000_0000_0000 == b / 0x8000_0000,
        (float::widened(b) / 0x10_0000_0000_0000) % 2048 - 1023 == (b / 0x80_0000) % 256 - 127,
        float::widened(b) % 0x10_0000_0000_0000 == (b % 0x80_0000) * 0x2000_0000,
{
}

/// Widening keeps the value of a subnormal number, which becomes normal: with
/// the fraction `f` it is `f * 2^-149`, and with the exponent `e` and the
/// significand `m` of double precision `m * 2^(e - 1075)`.
pub proof fn law_widening_of_subnormal_numbers(b: u32)
    requires
        (b / 0x80_0000) % 256 == 0,
    ensures
        float::widened(b) / 0x8000_0000_0000_0000 == b / 0x8000_0000,
        b % 0x80_0000 == 0 ==> float::widened(b) % 0x8000_0000_0000_0000 == 0,
        b % 0x80_0000 != 0 ==> {
            let e = (float::widened(b) / 0x10_0000_0000_0000) % 2048;
            let m = 0x10_0000_0000_0000 + float::widened(b) % 0x10_0000_0000_0000;
            &&& 0 < e <= 926
            &&& m == (b % 0x80_0000) * power2::pow2((926 - e) as nat)
        },
{
    float::law_widening_keeps_the_value(b);
    let w = float::widened(b);
    let f = (b % 0x80_0000) as nat;
    if f != 0 {
        let e = float::double_exponent(w);
        if e == 0 {
            power2::lemma_pow2_pos((-149 + 1074) as nat);
            power2::lemma_pow2_strictly_increases(52, 925);
            power2::lemma2_to64();
            power2::lemma2_to64_rest();
            assert(f * power2::pow2(925) > 0x10_0000_0000_0000) by (nonlinear_arith)
                requires
                    f >= 1,
                    power2::pow2(925) > 0x10_0000_0000_0000,
            ;
            assert(false);
        }
        assert(float::single_scale(b) - float::double_scale(w) == 926 - e);
    }
}

} // verus!
