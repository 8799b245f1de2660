//! Widening of single-precision numbers to double precision, on their IEEE 754
//! bit patterns.
#[allow(unused_imports)]
use vstd::arithmetic::power2;
use vstd::prelude::*;

verus! {

/// The sign bit of a single-precision number.
pub open spec fn single_sign(b: u32) -> nat {
    (b / 0x8000_0000) as nat
}

/// The exponent field of a single-precision number.
pub open spec fn single_exponent(b: u32) -> nat {
    ((b / 0x80_0000) % 256) as nat
}

/// The fraction field of a single-precision number.
pub open spec fn single_fraction(b: u32) -> nat {
    (b % 0x80_0000) as nat
}

/// The double-precision number with these fields.
pub open spec fn double(sign: nat, exponent: int, fraction: nat) -> u64 {
    (sign * 0x8000_0000_0000_0000 + exponent * 0x10_0000_0000_0000 + fraction) as u64
}

/// A significand doubled until its leading bit stands where that of a normal
/// number stands, with the exponent that makes up for it.
pub open spec fn normalized(m: nat, e: int) -> (nat, int)
    decreases 0x100_0000 - m,
{
    if m == 0 || m >= 0x80_0000 {
        (m, e)
    } else {
        normalized(2 * m, e - 1)
    }
}

/// The double-precision form of a single-precision number. What is not a number
/// keeps the leading bits of its fraction and becomes quiet.
pub open spec fn widened(b: u32) -> u64 {
    let sign = single_sign(b);
    let e = single_exponent(b);
    let f = single_fraction(b);
    if e == 255 {
        if f == 0 {
            double(sign, 2047, 0)
        } else if f >= 0x40_0000 {
            double(sign, 2047, f * 0x2000_0000)
        } else {
            double(sign, 2047, f * 0x2000_0000 + 0x8_0000_0000_0000)
        }
    } else if e > 0 {
        double(sign, e as int + 896, f * 0x2000_0000)
    } else if f == 0 {
        double(sign, 0, 0)
    } else {
        let (m, e1) = normalized(f, 1);
        double(sign, e1 + 896, ((m - 0x80_0000) * 0x2000_0000) as nat)
    }
}

proof fn lemma_times(a: nat, b: nat, c: nat)
    requires
        b == c,
    ensures
        a * b == a * c,
{
}

proof fn lemma_normalized(m: nat, e: int)
    requires
        0 < m < 0x100_0000,
    ensures
        0x80_0000 <= normalized(m, e).0 < 0x100_0000,
        normalized(m, e).1 <= e,
        normalized(m, e).0 == m * power2::pow2((e - normalized(m, e).1) as nat),
        m * power2::pow2((e - normalized(m, e).1) as nat) < 0x100_0000,
    decreases 0x100_0000 - m,
{
    if m >= 0x80_0000 {
        power2::lemma2_to64();
        lemma_times(m, power2::pow2((e - normalized(m, e).1) as nat), 1);
    } else {
        lemma_normalized(2 * m, e - 1);
        let (m1, e1) = normalized(m, e);
        let d = (e - 1 - e1) as nat;
        power2::lemma_pow2_unfold(d + 1);
        assert(m * power2::pow2(d + 1) == (2 * m) * power2::pow2(d)) by (nonlinear_arith)
            requires
                power2::pow2(d + 1) == 2 * power2::pow2(d),
        ;
        assert((e - e1) as nat == d + 1);
    }
}

/// A significand below two to the `k` needs no more than `24 - k` doublings.
proof fn lemma_normalized_exponent(m: nat, e: int, k: nat)
    requires
        0 < m,
        k <= 23,
        m * power2::pow2(k) >= 0x80_0000,
    ensures
        normalized(m, e).1 >= e - k,
    decreases k,
{
    if m < 0x80_0000 {
        if k == 0 {
            power2::lemma2_to64();
            assert(false);
        }
        power2::lemma_pow2_unfold(k);
        let j = (k - 1) as nat;
        assert((2 * m) * power2::pow2(j) == m * power2::pow2(k)) by (nonlinear_arith)
            requires
                power2::pow2(k) == 2 * power2::pow2(j),
        ;
        lemma_normalized_exponent(2 * m, e - 1, j);
    }
}

/// Widens a single-precision number.
pub fn widen(b: u32) -> (r: u64)
    ensures
        r == widened(b),
{
    let sign: u64 = (b / 0x8000_0000) as u64;
    let exponent: u64 = ((b / 0x80_0000) % 256) as u64;
    let fraction: u64 = (b % 0x80_0000) as u64;
    let high: u64 = sign * 0x8000_0000_0000_0000;
    if exponent == 255 {
        let quiet: u64 = if fraction == 0 || fraction >= 0x40_0000 {
            0
        } else {
            0x8_0000_0000_0000
        };
        return high + 0x7ff0_0000_0000_0000 + fraction * 0x2000_0000 + quiet;
    }
    if exponent > 0 {
        return high + (exponent + 896) * 0x10_0000_0000_0000 + fraction * 0x2000_0000;
    }
    if fraction == 0 {
        return high;
    }
    proof {
        power2::lemma2_to64();
        lemma_normalized(fraction as nat, 1);
        lemma_normalized_exponent(fraction as nat, 1, 23);
    }
    let mut m: u64 = fraction;
    let mut e: i64 = 1;
    while m < 0x80_0000
        invariant
            0 < m < 0x100_0000,
            e <= 1,
            -22 <= normalized(fraction as nat, 1).1 <= e,
            normalized(fraction as nat, 1) == normalized(m as nat, e as int),
        decreases 0x100_0000 - m,
    {
        proof {
            lemma_normalized(2 * m as nat, e - 1);
        }
        m = m * 2;
        e = e - 1;
    }
    high + ((e + 896) as u64) * 0x10_0000_0000_0000 + (m - 0x80_0000) * 0x2000_0000
}

// ---------------------------------------------------------------------------
// Laws
// ---------------------------------------------------------------------------

/// The significand of a finite single-precision number.
pub open spec fn single_significand(b: u32) -> nat {
    if single_exponent(b) == 0 {
        single_fraction(b)
    } else {
        0x80_0000 + single_fraction(b)
    }
}

/// The power of two that the significand is scaled by.
pub open spec fn single_scale(b: u32) -> int {
    if single_exponent(b) == 0 {
        -149
    } else {
        single_exponent(b) - 150
    }
}

/// The exponent field of a double-precision number.
pub open spec fn double_exponent(d: u64) -> nat {
    ((d / 0x10_0000_0000_0000) % 2048) as nat
}

/// The significand of a finite double-precision number.
pub open spec fn double_significand(d: u64) -> nat {
    if double_exponent(d) == 0 {
        (d % 0x10_0000_0000_0000) as nat
    } else {
        0x10_0000_0000_0000 + (d % 0x10_0000_0000_0000) as nat
    }
}

/// The power of two that the significand is scaled by.
pub open spec fn double_scale(d: u64) -> int {
    if double_exponent(d) == 0 {
        -1074
    } else {
        double_exponent(d) - 1075
    }
}

/// Widening keeps the sign and the value of every finite number: significand
/// times power of two is the same before and after.
pub proof fn law_widening_keeps_the_value(b: u32)
    requires
        single_exponent(b) != 255,
    ensures
        widened(b) / 0x8000_0000_0000_0000 == single_sign(b),
        double_exponent(widened(b)) != 2047,
        double_scale(widened(b)) <= single_scale(b),
        double_significand(widened(b)) == single_significand(b) * power2::pow2(
            (single_scale(b) - double_scale(widened(b))) as nat,
        ),
{
    power2::lemma2_to64();
    let sign = single_sign(b);
    let e = single_exponent(b);
    let f = single_fraction(b);
    let shift = power2::pow2((single_scale(b) - double_scale(widened(b))) as nat);
    if e > 0 {
        lemma_times(single_significand(b), shift, 0x2000_0000);
    } else if f == 0 {
        assert(0 * shift == 0) by (nonlinear_arith);
    } else {
        lemma_normalized(f, 1);
        lemma_normalized_exponent(f, 1, 23);
        let (m, e1) = normalized(f, 1);
        let d = (1 - e1) as nat;
        let w = widened(b);
        assert(double_exponent(w) == e1 + 896);
        assert(double_significand(w) == m * 0x2000_0000);
        power2::lemma_pow2_adds(d, 29);
        assert(f * power2::pow2(d + 29) == (f * power2::pow2(d)) * power2::pow2(29))
            by (nonlinear_arith)
            requires
                power2::pow2(d + 29) == power2::pow2(d) * power2::pow2(29),
        ;
        assert((single_scale(b) - double_scale(w)) as nat == d + 29);
        lemma_times(m, power2::pow2(29), 0x2000_0000);
    }
}

} // verus!
