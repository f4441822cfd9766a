//! Bit patterns of IEEE 754 binary32 numbers.
//!
//! Single-precision readings travel through this library as their 32-bit
//! patterns.  This module says what number a pattern stands for, compares two
//! patterns and builds the pattern of a number that binary32 holds exactly.
use vstd::arithmetic::mul::*;
use vstd::arithmetic::power2::*;
use vstd::prelude::*;

verus! {

/// The quiet NaN that every NaN result of this library uses.
pub const QUIET_NAN: u32 = 0x7FC0_0000;

/// Positive infinity.
pub const POSITIVE_INFINITY: u32 = 0x7F80_0000;

/// Negative infinity.
pub const NEGATIVE_INFINITY: u32 = 0xFF80_0000;

/// The largest finite number.
pub const LARGEST_FINITE: u32 = 0x7F7F_FFFF;

/// The sign bit is set.
pub open spec fn negative(bits: u32) -> bool {
    bits >= 0x8000_0000
}

/// The eight exponent bits.
pub open spec fn exponent_field(bits: u32) -> nat {
    (bits as nat / 0x80_0000) % 0x100
}

/// The twenty-three fraction bits.
pub open spec fn fraction_field(bits: u32) -> nat {
    bits as nat % 0x80_0000
}

/// The pattern is one of the NaNs.
pub open spec fn nan(bits: u32) -> bool {
    exponent_field(bits) == 255 && fraction_field(bits) != 0
}

/// The pattern is neither an infinity nor a NaN.
pub open spec fn finite(bits: u32) -> bool {
    exponent_field(bits) < 255
}

/// The magnitude of the number with the given exponent and fraction fields, in
/// units of the smallest subnormal, 2^-149.
pub open spec fn scaled_magnitude(exponent: nat, fraction: nat) -> nat {
    if exponent == 0 {
        fraction
    } else {
        (0x80_0000 + fraction) * pow2((exponent - 1) as nat)
    }
}

/// The magnitude of a pattern in units of 2^-149.  An infinity counts as 2^128,
/// which is above every finite number.
pub open spec fn magnitude(bits: u32) -> nat {
    scaled_magnitude(exponent_field(bits), fraction_field(bits))
}

/// The number that a pattern stands for, in units of 2^-149.
pub open spec fn value(bits: u32) -> int {
    if negative(bits) {
        -(magnitude(bits) as int)
    } else {
        magnitude(bits) as int
    }
}

/// The numerical order; a NaN is below nothing and above nothing.
pub open spec fn less(a: u32, b: u32) -> bool {
    !nan(a) && !nan(b) && value(a) < value(b)
}

/// The finite pattern with the given sign and magnitude, the latter in units of
/// 2^-149; there is at most one.
pub open spec fn pattern(minus: bool, m: nat) -> u32 {
    choose|bits: u32| finite(bits) && negative(bits) == minus && magnitude(bits) == m
}

/// Larger fields mean a larger magnitude.
proof fn lemma_scaled_magnitude_increases(e1: nat, f1: nat, e2: nat, f2: nat)
    requires
        f1 < 0x80_0000,
        f2 < 0x80_0000,
        e1 < e2 || (e1 == e2 && f1 < f2),
    ensures
        scaled_magnitude(e1, f1) < scaled_magnitude(e2, f2),
{
    if e1 == e2 {
        if e1 > 0 {
            let p = pow2((e1 - 1) as nat);
            lemma_pow2_pos((e1 - 1) as nat);
            lemma_mul_strict_inequality((0x80_0000 + f1) as int, (0x80_0000 + f2) as int, p as int);
        }
    } else {
        let p2 = pow2((e2 - 1) as nat);
        lemma_pow2_pos((e2 - 1) as nat);
        lemma_mul_inequality(0x80_0000, (0x80_0000 + f2) as int, p2 as int);
        if e1 == 0 {
            lemma_mul_inequality(1, p2 as int, 0x80_0000);
        } else {
            let p1 = pow2((e1 - 1) as nat);
            lemma_pow2_pos((e1 - 1) as nat);
            lemma_mul_strict_inequality((0x80_0000 + f1) as int, 0x100_0000, p1 as int);
            lemma_pow2_unfold(e1);
            if e1 < e2 - 1 {
                lemma_pow2_strictly_increases(e1, (e2 - 1) as nat);
            }
            assert(0x100_0000 * p1 == 0x80_0000 * pow2(e1));
            lemma_mul_inequality(pow2(e1) as int, p2 as int, 0x80_0000);
        }
    }
}

/// Among patterns of one sign the magnitude grows with the lower 31 bits.
pub proof fn lemma_magnitude_increases(a: u32, b: u32)
    ensures
        a as nat % 0x8000_0000 < b as nat % 0x8000_0000 <==> magnitude(a) < magnitude(b),
        a as nat % 0x8000_0000 == b as nat % 0x8000_0000 <==> magnitude(a) == magnitude(b),
{
    let e1 = exponent_field(a);
    let f1 = fraction_field(a);
    let e2 = exponent_field(b);
    let f2 = fraction_field(b);
    assert(a as nat % 0x8000_0000 == e1 * 0x80_0000 + f1);
    assert(b as nat % 0x8000_0000 == e2 * 0x80_0000 + f2);
    if a as nat % 0x8000_0000 < b as nat % 0x8000_0000 {
        lemma_scaled_magnitude_increases(e1, f1, e2, f2);
    } else if b as nat % 0x8000_0000 < a as nat % 0x8000_0000 {
        lemma_scaled_magnitude_increases(e2, f2, e1, f1);
    } else {
        assert(e1 == e2 && f1 == f2);
    }
}

/// A finite pattern is the one with its sign and its magnitude.
pub proof fn lemma_pattern_of_finite(bits: u32)
    requires
        finite(bits),
    ensures
        pattern(negative(bits), magnitude(bits)) == bits,
{
    let found = pattern(negative(bits), magnitude(bits));
    assert(finite(found) && negative(found) == negative(bits) && magnitude(found) == magnitude(
        bits,
    ));
    lemma_magnitude_increases(found, bits);
}

/// Whether a pattern is a NaN.
pub fn is_nan(bits: u32) -> (r: bool)
    ensures
        r == nan(bits),
{
    (bits / 0x80_0000) % 0x100 == 255 && bits % 0x80_0000 != 0
}

/// A number that orders patterns as their values are ordered, NaNs aside.
fn order_key(bits: u32) -> (r: i64)
    ensures
        r == (if negative(bits) {
            -(bits as int % 0x8000_0000)
        } else {
            bits as int % 0x8000_0000
        }),
{
    let lower: i64 = (bits % 0x8000_0000) as i64;
    if bits >= 0x8000_0000 {
        -lower
    } else {
        lower
    }
}

/// Whether the number `a` is below the number `b`.
pub fn less_than(a: u32, b: u32) -> (r: bool)
    ensures
        r == less(a, b),
{
    proof {
        lemma_magnitude_increases(a, b);
        lemma_magnitude_increases(a, 0);
        lemma_magnitude_increases(b, 0);
    }
    !is_nan(a) && !is_nan(b) && order_key(a) < order_key(b)
}

/// The pattern of `n` * 2^-`scale`, with the given sign.  Binary32 keeps
/// twenty-four significant bits, so `n` has to fit in them.
pub fn from_scaled(minus: bool, n: u32, scale: u32) -> (r: u32)
    requires
        n <= 0x200_0000,
        n <= 0x100_0000 || n % 2 == 0,
        scale <= 100,
    ensures
        r == pattern(minus, n as nat * pow2((149 - scale) as nat)),
        finite(r),
        negative(r) == minus,
        magnitude(r) == n * pow2((149 - scale) as nat),
{
    let sign: u32 = if minus { 0x8000_0000 } else { 0 };
    if n == 0 {
        proof {
            assert(magnitude(sign) == 0);
            lemma_pattern_of_finite(sign);
        }
        return sign;
    }
    let mut significand: u32 = n;
    let mut exponent: u32 = 150 - scale;
    let ghost m = n as nat * pow2((149 - scale) as nat);
    proof {
        lemma2_to64();
        lemma_pow2_strictly_increases(32, (149 - scale) as nat);
        lemma_mul_inequality(1, n as int, pow2((149 - scale) as nat) as int);
        lemma_pow2_unfold((150 - scale) as nat);
        lemma_pow2_unfold((151 - scale) as nat);
    }
    while significand >= 0x100_0000
        invariant
            0 < significand <= 0x200_0000,
            significand > 0x100_0000 ==> significand % 2 == 0 && exponent == 150 - scale,
            scale <= 100,
            50 <= exponent <= 152,
            significand >= 0x100_0000 ==> exponent <= 151,
            m == significand * pow2((exponent - 1) as nat),
            m >= 0x80_0000,
        decreases significand,
    {
        proof {
            lemma_pow2_unfold(exponent as nat);
            lemma_mul_is_associative(
                (significand / 2) as int,
                2,
                pow2((exponent - 1) as nat) as int,
            );
        }
        significand = significand / 2;
        exponent = exponent + 1;
    }
    while significand < 0x80_0000
        invariant
            0 < significand < 0x100_0000,
            1 <= exponent <= 152,
            m == significand * pow2((exponent - 1) as nat),
            m >= 0x80_0000,
        decreases 0x100_0000 - significand,
    {
        proof {
            lemma2_to64();
            if exponent == 1 {
                assert(significand * pow2(0) == significand);
            }
            lemma_pow2_unfold((exponent - 1) as nat);
            lemma_mul_is_associative(significand as int, 2, pow2((exponent - 2) as nat) as int);
        }
        significand = significand * 2;
        exponent = exponent - 1;
    }
    let bits: u32 = sign + exponent * 0x80_0000 + (significand - 0x80_0000);
    proof {
        assert(exponent_field(bits) == exponent);
        assert(fraction_field(bits) == significand - 0x80_0000);
        lemma_pattern_of_finite(bits);
    }
    bits
}

/// Law: the NaNs are the patterns above that of infinity, of either sign.
pub proof fn law_nans_are_above_infinity(bits: u32)
    ensures
        nan(bits) <==> bits as nat % 0x8000_0000 > 0x7F80_0000,
        finite(bits) <==> (bits as nat % 0x8000_0000) < 0x7F80_0000,
{
}

/// Law: zero is the first magnitude, each further pattern is larger by the same
/// amount as long as the exponent stays, and the amount doubles with the exponent;
/// the sign bit has no part in it.
pub proof fn law_patterns_are_evenly_spaced(bits: u32)
    requires
        bits < 0x7F80_0000,
    ensures
        magnitude(0) == 0,
        magnitude((bits + 1) as u32) == magnitude(bits) + pow2(
            if bits < 0x80_0000 {
                0
            } else {
                (bits as nat / 0x80_0000 - 1) as nat
            },
        ),
        magnitude((bits + 0x8000_0000) as u32) == magnitude(bits),
{
    let e = exponent_field(bits);
    let f = fraction_field(bits);
    let next = (bits + 1) as u32;
    let mirrored = (bits + 0x8000_0000) as u32;
    lemma2_to64();
    assert(e == bits as nat / 0x80_0000);
    assert(exponent_field(mirrored) == e && fraction_field(mirrored) == f);
    if f + 1 < 0x80_0000 {
        assert(exponent_field(next) == e && fraction_field(next) == f + 1);
        if e > 0 {
            let unit = pow2((e - 1) as nat);
            lemma_mul_is_distributive_add_other_way(unit as int, (0x80_0000 + f) as int, 1);
            assert(magnitude(bits) == (0x80_0000 + f) * unit);
            assert(magnitude(next) == (0x80_0000 + f + 1) * unit);
        }
    } else {
        assert(exponent_field(next) == e + 1 && fraction_field(next) == 0);
        if e > 0 {
            let unit = pow2((e - 1) as nat);
            lemma_pow2_unfold(e);
            assert(0x80_0000 + f == 0xFF_FFFF);
            assert(magnitude(bits) == 0xFF_FFFF * unit);
            assert(magnitude(next) == 0x80_0000 * pow2(e));
        } else {
            assert(magnitude(next) == 0x80_0000 * pow2(0));
        }
    }
}

/// Law: numbers without a sign bit are ordered as their patterns, those with one
/// the other way round, and the former are above the latter, but for the two
/// zeros, which are equal; no order holds with a NaN.
pub proof fn law_order_is_that_of_the_patterns(a: u32, b: u32)
    ensures
        nan(a) || nan(b) ==> !less(a, b),
        !nan(a) && !nan(b) ==> {
            &&& a < 0x8000_0000 && b < 0x8000_0000 ==> (less(a, b) <==> a < b)
            &&& a >= 0x8000_0000 && b >= 0x8000_0000 ==> (less(a, b) <==> a > b)
            &&& a >= 0x8000_0000 && b < 0x8000_0000 ==> (less(a, b) <==> !(a == 0x8000_0000 && b
                == 0))
            &&& a < 0x8000_0000 && b >= 0x8000_0000 ==> !less(a, b)
        },
{
    lemma_magnitude_increases(a, b);
    lemma_magnitude_increases(b, a);
    lemma_magnitude_increases(a, 0);
    lemma_magnitude_increases(0, a);
    lemma_magnitude_increases(b, 0);
    lemma_magnitude_increases(0, b);
}

} // verus!
