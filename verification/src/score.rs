//! Scores as exact, totally ordered keys.
//!
//! A score is computed as a double. The index orders scores by their exact
//! values, so it takes each score as a 64-bit key that is made from the
//! double's bit pattern without rounding: two finite doubles compare as their
//! keys do, and the two zeros share a key.

use vstd::arithmetic::power2::{lemma2_to64_rest, lemma_pow2_pos, lemma_pow2_strictly_increases, lemma_pow2_unfold, pow2};
use vstd::prelude::*;

verus! {

/// The sign bit of a double.
pub const SIGN_BIT: u64 = 0x8000_0000_0000_0000;

/// The eleven exponent bits of a double.
pub const EXPONENT_BITS: u64 = 0x7FF0_0000_0000_0000;

/// The fifty-two fraction bits of a double.
pub const FRACTION_BITS: u64 = 0x000F_FFFF_FFFF_FFFF;

/// The bits are those of a finite double: neither an infinity nor a NaN.
pub open spec fn is_finite(bits: u64) -> bool {
    bits & EXPONENT_BITS != EXPONENT_BITS
}

/// The sign bit is set.
pub open spec fn is_negative(bits: u64) -> bool {
    bits & SIGN_BIT != 0
}

/// The exponent field.
pub open spec fn exponent_field(bits: u64) -> nat {
    ((bits & EXPONENT_BITS) >> 52) as nat
}

/// The fraction field.
pub open spec fn fraction_field(bits: u64) -> nat {
    (bits & FRACTION_BITS) as nat
}

/// The absolute value of a double with these fields, times two to the 1074th:
/// a whole number for every finite double.
pub open spec fn scaled(exponent: nat, fraction: nat) -> nat {
    if exponent == 0 {
        fraction
    } else {
        (pow2(52) + fraction) * pow2((exponent - 1) as nat)
    }
}

/// The exact value of a finite double, times two to the 1074th.
pub open spec fn scaled_value(bits: u64) -> int {
    if is_negative(bits) {
        -(scaled(exponent_field(bits), fraction_field(bits)) as int)
    } else {
        scaled(exponent_field(bits), fraction_field(bits)) as int
    }
}

/// The key of a finite double: the keys of the doubles from zero upward rise
/// from the middle of the key range, those of the negative doubles fall from
/// it.
pub open spec fn key_of(bits: u64) -> u64 {
    if is_negative(bits) {
        (SIGN_BIT - (bits & !SIGN_BIT)) as u64
    } else {
        (SIGN_BIT + bits) as u64
    }
}

/// The bits of a double with this key: those of a double from zero upward
/// for a key in the upper half, of a negative double for one in the lower.
pub open spec fn bits_of(key: u64) -> u64 {
    if key >= SIGN_BIT {
        (key - SIGN_BIT) as u64
    } else {
        SIGN_BIT | ((SIGN_BIT - key) as u64)
    }
}

/// The scaled magnitude rises strictly with the fields, the exponent first.
pub proof fn lemma_scaled_rises(e1: nat, f1: nat, e2: nat, f2: nat)
    requires
        f1 < pow2(52),
        f2 < pow2(52),
        e1 < e2 || (e1 == e2 && f1 < f2),
    ensures
        scaled(e1, f1) < scaled(e2, f2),
{
    let p = pow2(52);
    lemma_pow2_pos(52);
    if e1 == e2 {
        if e1 > 0 {
            let q = pow2((e1 - 1) as nat);
            lemma_pow2_pos((e1 - 1) as nat);
            assert((p + f1) * q < (p + f2) * q) by (nonlinear_arith)
                requires
                    f1 < f2,
                    q > 0,
            ;
        }
    } else {
        let q2 = pow2((e2 - 1) as nat);
        lemma_pow2_pos((e2 - 1) as nat);
        assert(p * q2 <= (p + f2) * q2) by (nonlinear_arith)
            requires
                q2 > 0,
        ;
        if e1 == 0 {
            assert(p * 1 <= p * q2) by (nonlinear_arith)
                requires
                    q2 >= 1,
            ;
        } else {
            let q1 = pow2((e1 - 1) as nat);
            lemma_pow2_pos((e1 - 1) as nat);
            lemma_pow2_unfold(e1);
            if e1 < e2 - 1 {
                lemma_pow2_strictly_increases(e1, (e2 - 1) as nat);
            }
            assert((p + f1) * q1 < p * q2) by (nonlinear_arith)
                requires
                    f1 < p,
                    q1 > 0,
                    2 * q1 <= q2,
            ;
        }
    }
}

/// The bits without the sign are the exponent field, shifted past the
/// fraction, plus the fraction field.
proof fn lemma_fields(bits: u64)
    ensures
        (bits & !SIGN_BIT) == exponent_field(bits) * 0x10_0000_0000_0000 + fraction_field(bits),
        fraction_field(bits) < 0x10_0000_0000_0000,
        exponent_field(bits) <= 0x7FF,
        is_finite(bits) ==> exponent_field(bits) < 0x7FF,
        (bits & !SIGN_BIT) < SIGN_BIT,
        !is_negative(bits) ==> (bits & !SIGN_BIT) == bits,
{
    let e = (bits & EXPONENT_BITS) >> 52;
    let f = bits & FRACTION_BITS;
    assert((bits & !0x8000_0000_0000_0000u64) == e * 0x10_0000_0000_0000 + f && f
        < 0x10_0000_0000_0000 && e <= 0x7FF && (bits & !0x8000_0000_0000_0000u64)
        < 0x8000_0000_0000_0000) by (bit_vector)
        requires
            e == (bits & 0x7FF0_0000_0000_0000u64) >> 52,
            f == bits & 0x000F_FFFF_FFFF_FFFFu64,
    ;
    assert((bits & 0x7FF0_0000_0000_0000u64 != 0x7FF0_0000_0000_0000u64) ==> e < 0x7FF)
        by (bit_vector)
        requires
            e == (bits & 0x7FF0_0000_0000_0000u64) >> 52,
    ;
    assert(bits & 0x8000_0000_0000_0000u64 == 0 ==> (bits & !0x8000_0000_0000_0000u64) == bits)
        by (bit_vector);
}

/// Of the magnitudes of two doubles, the one with the smaller bits is the
/// smaller number, and equal numbers have equal bits.
proof fn lemma_magnitude_order(a: u64, b: u64)
    ensures
        (a & !SIGN_BIT) < (b & !SIGN_BIT) <==> scaled(exponent_field(a), fraction_field(a))
            < scaled(exponent_field(b), fraction_field(b)),
        (a & !SIGN_BIT) == (b & !SIGN_BIT) <==> scaled(exponent_field(a), fraction_field(a))
            == scaled(exponent_field(b), fraction_field(b)),
        (a & !SIGN_BIT) == 0 <==> scaled(exponent_field(a), fraction_field(a)) == 0,
{
    lemma_fields(a);
    lemma_fields(b);
    lemma2_to64_rest();
    let (ea, fa) = (exponent_field(a), fraction_field(a));
    let (eb, fb) = (exponent_field(b), fraction_field(b));
    if ea < eb || (ea == eb && fa < fb) {
        lemma_scaled_rises(ea, fa, eb, fb);
    } else if eb < ea || (eb == ea && fb < fa) {
        lemma_scaled_rises(eb, fb, ea, fa);
    }
    if ea > 0 || fa > 0 {
        lemma_scaled_rises(0, 0, ea, fa);
    }
}

/// Keys order as the doubles do: of two finite doubles the one with the
/// smaller key is the smaller number, and they share a key exactly when they
/// are the same number.
pub proof fn lemma_key_order(a: u64, b: u64)
    requires
        is_finite(a),
        is_finite(b),
    ensures
        key_of(a) < key_of(b) <==> scaled_value(a) < scaled_value(b),
        key_of(a) == key_of(b) <==> scaled_value(a) == scaled_value(b),
{
    lemma_fields(a);
    lemma_fields(b);
    lemma_magnitude_order(a, b);
    lemma_magnitude_order(b, a);
}

/// A key gives back the double it was made from; the negative zero comes
/// back as zero, which is the same number.
pub proof fn lemma_key_round_trip(bits: u64)
    requires
        is_finite(bits),
    ensures
        is_finite(bits_of(key_of(bits))),
        key_of(bits_of(key_of(bits))) == key_of(bits),
        scaled_value(bits_of(key_of(bits))) == scaled_value(bits),
        bits != SIGN_BIT ==> bits_of(key_of(bits)) == bits,
{
    lemma_fields(bits);
    let back = bits_of(key_of(bits));
    let m = bits & !SIGN_BIT;
    assert(bits & 0x8000_0000_0000_0000u64 != 0 ==> bits == 0x8000_0000_0000_0000u64 | m) by (bit_vector)
        requires
            m == bits & !0x8000_0000_0000_0000u64,
    ;
    assert(0x8000_0000_0000_0000u64 | 0 == 0x8000_0000_0000_0000u64) by (bit_vector);
    if is_negative(bits) && m == 0 {
        assert(back == 0);
        assert(0u64 & 0x7FF0_0000_0000_0000u64 != 0x7FF0_0000_0000_0000u64) by (bit_vector);
        assert(0u64 & 0x8000_0000_0000_0000u64 == 0) by (bit_vector);
        lemma_key_order(back, bits);
        assert(key_of(back) == SIGN_BIT);
    } else {
        assert(back == bits);
    }
}

/// The key of a double, from its bits; `None` exactly for the bits of an
/// infinity or a NaN, which are no scores.
pub fn score_key(bits: u64) -> (r: Option<u64>)
    ensures
        r == if is_finite(bits) {
            Some(key_of(bits))
        } else {
            None
        },
{
    if bits & EXPONENT_BITS == EXPONENT_BITS {
        None
    } else {
        proof {
            lemma_fields(bits);
        }
        if bits & SIGN_BIT != 0 {
            Some(SIGN_BIT - (bits & !SIGN_BIT))
        } else {
            Some(SIGN_BIT + bits)
        }
    }
}

/// The bits of the double that a key stands for.
pub fn key_bits(key: u64) -> (bits: u64)
    ensures
        bits == bits_of(key),
{
    if key >= SIGN_BIT {
        key - SIGN_BIT
    } else {
        SIGN_BIT | (SIGN_BIT - key)
    }
}

} // verus!
