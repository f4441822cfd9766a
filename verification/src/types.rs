//! FP8 (E4M3), the element type of every matrix in the kernel.
use crate::binary32;
use vstd::arithmetic::div_mod::*;
use vstd::arithmetic::mul::*;
use vstd::arithmetic::power2::*;
use vstd::bits::*;
use vstd::prelude::*;

verus! {

/// FP8 (E4M3): one sign bit, four exponent bits with bias 7, three mantissa bits.
///
/// Every finite value is a whole number of 1/512ths, the smallest subnormal.
/// The patterns with all exponent bits set are set apart: mantissa 0 is an
/// infinity, mantissa 6 is the saturation value 448, the others are NaNs.
#[derive(Clone, Copy, PartialEq, Eq, Hash, Debug, Structural)]
pub struct Fp8(pub u8);

/// The magnitude, in 1/512ths, of the pattern with the lower seven bits `p`.
pub open spec fn step(p: nat) -> nat {
    if p < 8 {
        p
    } else {
        (8 + p % 8) * pow2((p / 8 - 1) as nat)
    }
}

/// The largest pattern whose magnitude is at most `n` 512ths: below 16 the
/// patterns count 512ths, and from there on a doubling is one exponent step.
pub open spec fn floor_pattern(n: nat) -> nat
    decreases n,
{
    if n < 16 {
        n
    } else {
        floor_pattern(n / 2) + 8
    }
}

/// The lower seven bits that a number with the given binary32 fields is cut to.
/// Exponent 120 is that of the upper subnormals, and 135 that of 256.
pub open spec fn cut_fields(exponent: nat, fraction: nat) -> nat {
    if exponent >= 135 {
        0x7E
    } else if exponent >= 121 {
        ((exponent - 120) * 8 + fraction / 0x10_0000) as nat
    } else if exponent == 120 {
        4 + fraction / 0x20_0000
    } else if exponent == 119 {
        2 + fraction / 0x40_0000
    } else if exponent == 118 {
        1
    } else {
        0
    }
}

/// The lower thirty-one bits of the binary32 number with the magnitude of the
/// finite pattern `p`.
pub open spec fn widened_fields(p: nat) -> nat {
    if p == 0x7E {
        135 * 0x80_0000 + 0x60_0000
    } else if p >= 8 {
        (p / 8 + 120) * 0x80_0000 + (p % 8) * 0x10_0000
    } else if p >= 4 {
        (120 * 0x80_0000 + (p - 4) * 0x20_0000) as nat
    } else if p >= 2 {
        (119 * 0x80_0000 + (p - 2) * 0x40_0000) as nat
    } else if p == 1 {
        118 * 0x80_0000
    } else {
        0
    }
}

impl Fp8 {
    /// Pattern of 0.0.
    pub const ZERO: u8 = 0x00;

    /// Pattern of 1.0.
    pub const ONE: u8 = 0x38;

    /// Pattern of -1.0.
    pub const NEG_ONE: u8 = 0xB8;

    /// Pattern of -448.0, the lowest value.
    pub const MIN: u8 = 0xFE;

    /// Pattern of 448.0, the highest value.
    pub const MAX: u8 = 0x7E;

    /// Pattern of the NaN that conversions produce.
    pub const NAN: u8 = 0x7F;

    /// Pattern of positive infinity.
    pub const INFINITY: u8 = 0x78;

    /// Pattern of negative infinity.
    pub const NEG_INFINITY: u8 = 0xF8;

    /// The sign bit is set.
    pub open spec fn minus(self) -> bool {
        self.0 >= 0x80
    }

    /// The lower seven bits.
    pub open spec fn pattern(self) -> nat {
        self.0 as nat % 0x80
    }

    /// One of the two infinities.
    pub open spec fn infinite(self) -> bool {
        self.pattern() == 0x78
    }

    /// One of the NaNs.
    pub open spec fn nan(self) -> bool {
        self.pattern() > 0x78 && self.pattern() != 0x7E
    }

    /// Neither an infinity nor a NaN.
    pub open spec fn finite(self) -> bool {
        !self.infinite() && !self.nan()
    }

    /// The magnitude of a finite value in 1/512ths.
    pub open spec fn units(self) -> nat {
        if self.pattern() == 0x7E {
            448 * 512
        } else {
            step(self.pattern())
        }
    }

    /// A finite value in 1/512ths.
    pub open spec fn value(self) -> int {
        if self.minus() {
            -(self.units() as int)
        } else {
            self.units() as int
        }
    }

    /// The value of the given sign whose magnitude is `n` 512ths, cut off toward
    /// zero to three mantissa bits; from 256 on it saturates at 448.
    pub open spec fn toward_zero(minus: bool, n: nat) -> Fp8 {
        Fp8::signed(
            minus,
            if n >= 256 * 512 {
                0x7E
            } else {
                floor_pattern(n)
            },
        )
    }

    /// The value with the given sign and lower seven bits.
    pub open spec fn signed(minus: bool, p: nat) -> Fp8 {
        if minus {
            Fp8((0x80 + p) as u8)
        } else {
            Fp8(p as u8)
        }
    }

    /// What a binary32 number becomes as an FP8 value.
    pub open spec fn of_binary32(bits: u32) -> Fp8 {
        if binary32::nan(bits) {
            Fp8(Fp8::NAN)
        } else {
            Fp8::signed(
                binary32::negative(bits),
                cut_fields(binary32::exponent_field(bits), binary32::fraction_field(bits)),
            )
        }
    }

    /// The saturation value of the given sign.
    pub open spec fn saturated(minus: bool) -> Fp8 {
        if minus {
            Fp8(Fp8::MIN)
        } else {
            Fp8(Fp8::MAX)
        }
    }

    /// The sum as an FP8 value.  A sum of two finite FP8 values is exact in
    /// binary32, so it is cut only once.  A zero sum is negative only if both
    /// operands are.
    pub open spec fn sum(self, rhs: Fp8) -> Fp8 {
        if self.nan() || rhs.nan() {
            Fp8(Fp8::NAN)
        } else if self.infinite() && rhs.infinite() && self.minus() != rhs.minus() {
            Fp8(Fp8::NAN)
        } else if self.infinite() {
            Fp8::saturated(self.minus())
        } else if rhs.infinite() {
            Fp8::saturated(rhs.minus())
        } else {
            let total = self.value() + rhs.value();
            Fp8::toward_zero(
                total < 0 || (self.minus() && rhs.minus()),
                vstd::math::abs(total) as nat,
            )
        }
    }

    /// The product as an FP8 value.  A product of two finite FP8 values is exact
    /// in binary32, so it is cut only once.
    pub open spec fn product(self, rhs: Fp8) -> Fp8 {
        let minus = self.minus() != rhs.minus();
        if self.nan() || rhs.nan() {
            Fp8(Fp8::NAN)
        } else if self.infinite() || rhs.infinite() {
            if self.pattern() == 0 || rhs.pattern() == 0 {
                Fp8(Fp8::NAN)
            } else {
                Fp8::saturated(minus)
            }
        } else {
            Fp8::toward_zero(minus, self.units() * rhs.units() / 512)
        }
    }

    /// The binary32 pattern of this FP8 value.
    pub open spec fn as_binary32(self) -> u32 {
        if self.nan() {
            binary32::QUIET_NAN
        } else if self.infinite() {
            if self.minus() {
                binary32::NEGATIVE_INFINITY
            } else {
                binary32::POSITIVE_INFINITY
            }
        } else if self.minus() {
            (0x8000_0000 + widened_fields(self.pattern())) as u32
        } else {
            widened_fields(self.pattern()) as u32
        }
    }
}

/// One exponent step up doubles the magnitude.
proof fn lemma_step_doubles(p: nat)
    requires
        8 <= p,
    ensures
        step(p + 8) == 2 * step(p),
{
    let m = 8 + p % 8;
    let low = pow2((p / 8 - 1) as nat);
    lemma_pow2_unfold((p / 8) as nat);
    assert((p + 8) / 8 - 1 == p / 8);
    assert(step(p + 8) == m * (2 * low));
    assert(m * (2 * low) == 2 * (m * low)) by (nonlinear_arith);
}

/// The first sixteen patterns count 512ths.
proof fn lemma_step_small(p: nat)
    requires
        p <= 16,
    ensures
        step(p) == p,
{
    lemma2_to64();
    if p == 16 {
        assert(step(16) == 8 * pow2(1));
    } else if p >= 8 {
        assert(step(p) == (8 + p % 8) * pow2(0));
    }
}

/// Below the infinity pattern the magnitude grows with the pattern.
proof fn lemma_step_increases(p: nat)
    ensures
        step(p) < step(p + 1),
    decreases p,
{
    if p < 16 {
        lemma_step_small(p);
        lemma_step_small(p + 1);
    } else {
        lemma_step_increases((p - 8) as nat);
        lemma_step_doubles((p - 8) as nat);
        lemma_step_doubles((p - 7) as nat);
    }
}

/// The magnitude grows with the pattern over any distance.
proof fn lemma_step_monotone(p: nat, q: nat)
    requires
        p < q,
    ensures
        step(p) < step(q),
    decreases q - p,
{
    lemma_step_increases(p);
    if p + 1 < q {
        lemma_step_monotone(p + 1, q);
    }
}

/// `floor_pattern` picks the pattern just at or below its argument.
proof fn lemma_floor_pattern(n: nat)
    ensures
        step(floor_pattern(n)) <= n < step(floor_pattern(n) + 1),
        n < 16 ==> floor_pattern(n) == n,
        n >= 16 ==> floor_pattern(n) >= 16,
    decreases n,
{
    if n < 16 {
        lemma_step_small(n);
        lemma_step_small(n + 1);
    } else {
        lemma_floor_pattern(n / 2);
        let p = floor_pattern(n / 2);
        lemma_step_doubles(p);
        lemma_step_doubles(p + 1);
    }
}

/// The magnitudes at the two ends of the exponent range.
proof fn lemma_step_ends()
    ensures
        step(0x78) == 256 * 512,
        step(0x77) == 240 * 512,
        step(0x38) == 512,
{
    lemma2_to64();
    assert(step(0x78) == 8 * pow2(14));
    assert(step(0x77) == 15 * pow2(13));
    assert(step(0x38) == 8 * pow2(6));
}

/// Below 256 the cut stays below the infinity pattern.
proof fn lemma_floor_pattern_bound(n: nat)
    requires
        n < 256 * 512,
    ensures
        floor_pattern(n) < 0x78,
{
    lemma_floor_pattern(n);
    lemma_step_ends();
    if floor_pattern(n) > 0x78 {
        lemma_step_monotone(0x78, floor_pattern(n));
    }
}

/// Cutting the magnitude of a pattern gives the pattern back.
proof fn lemma_floor_pattern_inverts_step(p: nat)
    ensures
        floor_pattern(step(p)) == p,
{
    let q = floor_pattern(step(p));
    lemma_floor_pattern(step(p));
    if q < p {
        if q + 1 < p {
            lemma_step_monotone(q + 1, p);
        }
    } else if p < q {
        lemma_step_monotone(p, q);
    }
}

/// The parts of a signed pattern.
proof fn lemma_signed(minus: bool, p: nat)
    requires
        p < 0x80,
    ensures
        Fp8::signed(minus, p).minus() == minus,
        Fp8::signed(minus, p).pattern() == p,
{
}

/// The parts of a cut value.
#[verifier::spinoff_prover]
proof fn lemma_toward_zero(minus: bool, n: nat)
    ensures
        ({
            let r = Fp8::toward_zero(minus, n);
            &&& r.finite()
            &&& r.minus() == minus
            &&& n >= 256 * 512 ==> r == Fp8::saturated(minus)
            &&& n < 256 * 512 ==> {
                &&& r.pattern() < 0x78
                &&& r.units() <= n < step(r.pattern() + 1)
            }
        }),
{
    if n < 256 * 512 {
        lemma_floor_pattern(n);
        lemma_floor_pattern_bound(n);
        lemma_signed(minus, floor_pattern(n));
    } else {
        lemma_signed(minus, 0x7E);
    }
}

/// A finite value is what its own magnitude is cut to.
#[verifier::spinoff_prover]
proof fn lemma_toward_zero_of_units(x: Fp8)
    requires
        x.finite(),
    ensures
        Fp8::toward_zero(x.minus(), x.units()) == x,
{
    lemma_step_ends();
    assert(Fp8::signed(x.minus(), x.pattern()) == x);
    if x.pattern() != 0x7E {
        lemma_floor_pattern_inverts_step(x.pattern());
        lemma_step_monotone(x.pattern(), 0x78);
    }
}

/// No finite value is larger than the saturation value.
pub proof fn lemma_units_bound(x: Fp8)
    requires
        x.finite(),
    ensures
        x.units() <= 448 * 512,
        -448 * 512 <= x.value() <= 448 * 512,
{
    lemma_step_ends();
    if x.pattern() < 0x78 {
        lemma_step_monotone(x.pattern(), 0x78);
    }
}

/// The whole 512ths in the magnitude of a binary32 number, by its fields.
#[verifier::spinoff_prover]
proof fn lemma_whole_units(exponent: nat, fraction: nat)
    requires
        exponent < 256,
        fraction < 0x80_0000,
    ensures
        exponent >= 135 ==> binary32::scaled_magnitude(exponent, fraction) / pow2(140) >= 256 * 512,
        112 <= exponent < 135 ==> binary32::scaled_magnitude(exponent, fraction) / pow2(140) == (
        0x80_0000 + fraction) / pow2((141 - exponent) as nat),
        exponent < 112 ==> binary32::scaled_magnitude(exponent, fraction) / pow2(140) == 0,
{
    let unit = pow2(140) as int;
    let significand = (0x80_0000 + fraction) as int;
    lemma_pow2_pos(140);
    if exponent >= 135 {
        let p = pow2((exponent - 1) as nat) as int;
        lemma2_to64();
        lemma_pow2_adds(23, 134);
        lemma_pow2_adds(17, 140);
        if exponent > 135 {
            lemma_pow2_strictly_increases(134, (exponent - 1) as nat);
        }
        assert(0x80_0000 * pow2(134) == (256 * 512) * unit);
        lemma_mul_inequality(pow2(134) as int, p, 0x80_0000);
        lemma_mul_inequality(0x80_0000, significand, p);
        assert(significand * p >= (256 * 512) * unit);
        lemma_div_is_ordered((256 * 512) * unit, significand * p, unit);
        lemma_div_by_multiple(131072, unit);
    } else if exponent >= 112 {
        let p = pow2((exponent - 1) as nat) as int;
        let d = pow2((141 - exponent) as nat) as int;
        lemma_pow2_pos((exponent - 1) as nat);
        lemma_pow2_pos((141 - exponent) as nat);
        lemma_pow2_adds((exponent - 1) as nat, (141 - exponent) as nat);
        lemma_div_denominator(significand * p, p, d);
        lemma_div_by_multiple(significand, p);
    } else {
        lemma2_to64();
        lemma_pow2_adds(24, 111);
        lemma_pow2_strictly_increases(135, 140);
        if exponent == 0 {
            lemma_pow2_strictly_increases(24, 140);
        } else {
            let p = pow2((exponent - 1) as nat) as int;
            lemma_pow2_pos((exponent - 1) as nat);
            lemma_pow2_strictly_increases((exponent - 1) as nat, 111);
            lemma_mul_strict_inequality(significand, 0x100_0000, p);
            lemma_mul_inequality(p, pow2(111) as int, 0x100_0000);
        }
        lemma_basic_div(binary32::scaled_magnitude(exponent, fraction) as int, unit);
    }
}

/// Cutting the fields of a number is cutting its whole 512ths.
#[verifier::spinoff_prover]
proof fn lemma_cut_fields(exponent: nat, fraction: nat)
    requires
        exponent < 256,
        fraction < 0x80_0000,
    ensures
        ({
            let n = binary32::scaled_magnitude(exponent, fraction) / pow2(140);
            &&& n >= 256 * 512 <==> exponent >= 135
            &&& exponent < 135 ==> floor_pattern(n) == cut_fields(exponent, fraction)
        }),
{
    lemma_whole_units(exponent, fraction);
    if exponent < 135 {
        lemma2_to64();
        if exponent >= 121 {
            lemma_cut_normal(exponent, fraction);
        } else if exponent == 120 {
            assert((0x80_0000 + fraction) / pow2(21) == 4 + fraction / 0x20_0000);
        } else if exponent == 119 {
            assert((0x80_0000 + fraction) / pow2(22) == 2 + fraction / 0x40_0000);
        } else if exponent == 118 {
            assert((0x80_0000 + fraction) / pow2(23) == 1);
        } else if exponent >= 112 {
            let d = pow2((141 - exponent) as nat);
            if exponent < 117 {
                lemma_pow2_strictly_increases(24, (141 - exponent) as nat);
            }
            lemma_basic_div((0x80_0000 + fraction) as int, d as int);
        }
        let n = binary32::scaled_magnitude(exponent, fraction) / pow2(140);
        lemma_floor_pattern(n);
        lemma_step_ends();
        if n >= 256 * 512 && cut_fields(exponent, fraction) + 1 < 0x78 {
            lemma_step_monotone(cut_fields(exponent, fraction) + 1, 0x78);
        }
    }
}

/// A normal number of the FP8 range keeps its upper three fraction bits.
proof fn lemma_cut_normal(exponent: nat, fraction: nat)
    requires
        121 <= exponent < 135,
        fraction < 0x80_0000,
    ensures
        floor_pattern((0x80_0000 + fraction) / pow2((141 - exponent) as nat)) == (exponent - 120) * 8
            + fraction / 0x10_0000,
    decreases exponent,
{
    let significand = 0x80_0000 + fraction;
    let d = pow2((141 - exponent) as nat);
    lemma2_to64();
    if exponent == 121 {
        assert(significand / pow2(20) == 8 + fraction / 0x10_0000);
    } else {
        let above = pow2((142 - exponent) as nat);
        let n = significand / d;
        lemma_pow2_pos((141 - exponent) as nat);
        lemma_pow2_unfold((142 - exponent) as nat);
        lemma_div_denominator(significand as int, d as int, 2);
        assert(n / 2 == significand / above);
        lemma_cut_normal((exponent - 1) as nat, fraction);
        lemma_floor_pattern(n / 2);
        assert(n >= 16) by {
            if n / 2 < 8 {
                assert(floor_pattern(n / 2) < 8);
            }
        }
    }
}

/// The widened fields carry the magnitude of the pattern.
#[verifier::spinoff_prover]
proof fn lemma_widened_fields(p: nat)
    requires
        p < 0x78 || p == 0x7E,
    ensures
        ({
            let w = widened_fields(p);
            let units = if p == 0x7E {
                448 * 512
            } else {
                step(p)
            };
            &&& w / 0x80_0000 < 255
            &&& w < 0x8000_0000
            &&& binary32::scaled_magnitude(w / 0x80_0000, w % 0x80_0000) == units * pow2(140)
        }),
{
    lemma2_to64();
    let w = widened_fields(p);
    let e = w / 0x80_0000;
    let f = w % 0x80_0000;
    if p == 0x7E {
        lemma_widened_significand(0xE0_0000, 7, 0x20_0000, 21, 119, 15);
        assert(e == 135 && f == 0x60_0000);
    } else if p >= 8 {
        let k = (p / 8 - 1) as nat;
        assert(e == p / 8 + 120 && f == (p % 8) * 0x10_0000);
        lemma_widened_significand(0x80_0000 + f, 8 + p % 8, 0x10_0000, 20, 120, k);
    } else if p >= 4 {
        assert(e == 120 && f == (p - 4) * 0x20_0000);
        lemma_widened_significand(0x80_0000 + f, p, 0x20_0000, 21, 119, 0);
    } else if p >= 2 {
        assert(e == 119 && f == (p - 2) * 0x40_0000);
        lemma_widened_significand(0x80_0000 + f, p, 0x40_0000, 22, 118, 0);
    } else if p == 1 {
        assert(e == 118 && f == 0);
        lemma_widened_significand(0x80_0000, 1, 0x80_0000, 23, 117, 0);
    }
}

/// A significand of `m` with `shift` zero bits behind it carries `m` times
/// 2^`k` 512ths at the right exponent.
proof fn lemma_widened_significand(
    significand: nat,
    m: nat,
    scale: nat,
    shift: nat,
    exponent: nat,
    k: nat,
)
    requires
        significand == m * scale,
        scale == pow2(shift),
        shift + exponent == 140,
    ensures
        significand * pow2(exponent + k) == (m * pow2(k)) * pow2(140),
        k == 0 ==> m * pow2(k) == m,
{
    lemma2_to64();
    lemma_mul_basics(m as int);
    lemma_pow2_adds(shift, exponent + k);
    lemma_pow2_adds(k, 140);
    lemma_mul_is_associative(m as int, scale as int, pow2(exponent + k) as int);
    lemma_mul_is_associative(m as int, pow2(k) as int, pow2(140) as int);
}

impl Fp8 {
    /// The magnitude of a value in 1/512ths; meant for finite values.
    pub fn to_units(self) -> (r: u32)
        requires
            self.finite(),
        ensures
            r == self.units(),
            r <= 448 * 512,
    {
        let p: u8 = self.0 % 0x80;
        if p == 0x7E {
            return 448 * 512;
        }
        proof {
            lemma_step_ends();
            lemma_step_monotone(p as nat, 0x78);
        }
        if p < 8 {
            p as u32
        } else {
            let significand: u32 = 8 + (p % 8) as u32;
            let shift: u32 = (p / 8 - 1) as u32;
            proof {
                lemma_u32_shl_is_mul(significand, shift);
            }
            significand << shift
        }
    }

    /// The value of the given sign with magnitude `n` 512ths, cut toward zero
    /// and saturated.
    pub fn from_units(minus: bool, n: u32) -> (r: Fp8)
        ensures
            r == Fp8::toward_zero(minus, n as nat),
            n < 256 * 512 ==> r.pattern() == floor_pattern(n as nat),
            n >= 256 * 512 ==> r.pattern() == 0x7E,
            r.minus() == minus,
            r.finite(),
    {
        let sign: u8 = if minus { 0x80 } else { 0x00 };
        if n >= 256 * 512 {
            return Fp8(sign + 0x7E);
        }
        let mut rest: u32 = n;
        let mut p: u32 = 0;
        proof {
            lemma_floor_pattern_bound(n as nat);
        }
        while rest >= 16
            invariant
                p + floor_pattern(rest as nat) == floor_pattern(n as nat),
                floor_pattern(n as nat) < 0x78,
            decreases rest,
        {
            proof {
                lemma_floor_pattern(rest as nat);
                lemma_floor_pattern((rest / 2) as nat);
            }
            rest = rest / 2;
            p = p + 8;
        }
        Fp8(sign + (p + rest) as u8)
    }

    /// Convert FP8 to binary32; the result is the binary32 bit pattern.
    pub fn to_f32(self) -> (r: u32)
        ensures
            r == self.as_binary32(),
            self.nan() == binary32::nan(r),
            self.finite() ==> {
                &&& binary32::finite(r)
                &&& binary32::negative(r) == self.minus()
                &&& binary32::magnitude(r) == self.units() * pow2(140)
            },
    {
        let minus = self.0 >= 0x80;
        let p: u8 = self.0 % 0x80;
        if p == 0x78 {
            if minus {
                binary32::NEGATIVE_INFINITY
            } else {
                binary32::POSITIVE_INFINITY
            }
        } else if p > 0x78 && p != 0x7E {
            binary32::QUIET_NAN
        } else {
            let p: u32 = p as u32;
            let sign: u32 = if minus { 0x8000_0000 } else { 0 };
            proof {
                lemma_widened_fields(p as nat);
                lemma_as_binary32(self);
            }
            let widened: u32 = if p == 0x7E {
                135 * 0x80_0000 + 0x60_0000
            } else if p >= 8 {
                (p / 8 + 120) * 0x80_0000 + (p % 8) * 0x10_0000
            } else if p >= 4 {
                120 * 0x80_0000 + (p - 4) * 0x20_0000
            } else if p >= 2 {
                119 * 0x80_0000 + (p - 2) * 0x40_0000
            } else if p == 1 {
                118 * 0x80_0000
            } else {
                0
            };
            sign + widened
        }
    }

    /// Convert binary32, given as its bit pattern, to FP8: cut toward zero to
    /// three mantissa bits, saturating at the highest and lowest value.
    pub fn from_f32(x: u32) -> (r: Fp8)
        ensures
            r == Fp8::of_binary32(x),
            // 2^-9 is 2^140 times 2^-149.
            !binary32::nan(x) ==> r == Fp8::toward_zero(
                binary32::negative(x),
                binary32::magnitude(x) / pow2(140),
            ),
            !binary32::nan(x) ==> r.minus() == binary32::negative(x),
            r.nan() == binary32::nan(x),
            !r.infinite(),
    {
        if binary32::is_nan(x) {
            return Fp8(Fp8::NAN);
        }
        let exponent: u32 = (x / 0x80_0000) % 0x100;
        let fraction: u32 = x % 0x80_0000;
        let sign: u8 = if x >= 0x8000_0000 { 0x80 } else { 0x00 };
        proof {
            lemma_cut_fields(exponent as nat, fraction as nat);
        }
        let cut: u32 = if exponent >= 135 {
            0x7E
        } else if exponent >= 121 {
            (exponent - 120) * 8 + fraction / 0x10_0000
        } else if exponent == 120 {
            4 + fraction / 0x20_0000
        } else if exponent == 119 {
            2 + fraction / 0x40_0000
        } else if exponent == 118 {
            1
        } else {
            0
        };
        Fp8(sign + cut as u8)
    }
}

impl vstd::std_specs::ops::AddSpecImpl for Fp8 {
    open spec fn obeys_add_spec() -> bool {
        true
    }

    open spec fn add_req(self, rhs: Fp8) -> bool {
        true
    }

    open spec fn add_spec(self, rhs: Fp8) -> Fp8 {
        self.sum(rhs)
    }
}

impl core::ops::Add for Fp8 {
    type Output = Fp8;

    fn add(self, rhs: Fp8) -> (r: Fp8)
        ensures
            r == self.sum(rhs),
    {
        let a: u8 = self.0 % 0x80;
        let b: u8 = rhs.0 % 0x80;
        let a_minus = self.0 >= 0x80;
        let b_minus = rhs.0 >= 0x80;
        if a > 0x78 && a != 0x7E || b > 0x78 && b != 0x7E {
            return Fp8(Fp8::NAN);
        }
        if a == 0x78 && b == 0x78 && a_minus != b_minus {
            return Fp8(Fp8::NAN);
        }
        if a == 0x78 {
            return Fp8(if a_minus { Fp8::MIN } else { Fp8::MAX });
        }
        if b == 0x78 {
            return Fp8(if b_minus { Fp8::MIN } else { Fp8::MAX });
        }
        let a_units: u32 = self.to_units();
        let b_units: u32 = rhs.to_units();
        if a_minus == b_minus {
            Fp8::from_units(a_minus, a_units + b_units)
        } else if a_units >= b_units {
            Fp8::from_units(a_minus && a_units > b_units, a_units - b_units)
        } else {
            Fp8::from_units(b_minus, b_units - a_units)
        }
    }
}

impl vstd::std_specs::ops::MulSpecImpl for Fp8 {
    open spec fn obeys_mul_spec() -> bool {
        true
    }

    open spec fn mul_req(self, rhs: Fp8) -> bool {
        true
    }

    open spec fn mul_spec(self, rhs: Fp8) -> Fp8 {
        self.product(rhs)
    }
}

impl core::ops::Mul for Fp8 {
    type Output = Fp8;

    fn mul(self, rhs: Fp8) -> (r: Fp8)
        ensures
            r == self.product(rhs),
    {
        let a: u8 = self.0 % 0x80;
        let b: u8 = rhs.0 % 0x80;
        let minus = (self.0 >= 0x80) != (rhs.0 >= 0x80);
        if a > 0x78 && a != 0x7E || b > 0x78 && b != 0x7E {
            return Fp8(Fp8::NAN);
        }
        if a == 0x78 || b == 0x78 {
            if a == 0 || b == 0 {
                return Fp8(Fp8::NAN);
            }
            return Fp8(if minus { Fp8::MIN } else { Fp8::MAX });
        }
        let a_units: u64 = self.to_units() as u64;
        let b_units: u64 = rhs.to_units() as u64;
        proof {
            lemma_mul_upper_bound(a_units as int, 229376, b_units as int, 229376);
            lemma_mul_nonnegative(a_units as int, b_units as int);
        }
        Fp8::from_units(minus, (a_units * b_units / 512) as u32)
    }
}

/// A 128 by 128 matrix of zeros.
pub fn zero_state_matrix() -> (r: [[Fp8; 128]; 128])
    ensures
        forall|i: int, j: int|
            0 <= i < 128 && 0 <= j < 128 ==> #[trigger] r@[i]@[j] == Fp8(Fp8::ZERO),
{
    let row: [Fp8; 128] = [Fp8(Fp8::ZERO); 128];
    assert(row == vstd::array::spec_array_fill_for_copy_type::<Fp8, 128>(Fp8(Fp8::ZERO)));
    [row; 128]
}

/// A finite value and its binary32 pattern stand for the same number.
#[verifier::spinoff_prover]
proof fn lemma_as_binary32(x: Fp8)
    requires
        x.finite(),
    ensures
        ({
            let bits = x.as_binary32();
            &&& binary32::finite(bits)
            &&& binary32::negative(bits) == x.minus()
            &&& binary32::magnitude(bits) == x.units() * pow2(140)
        }),
{
    let w = widened_fields(x.pattern());
    lemma_widened_fields(x.pattern());
    assert(binary32::exponent_field(x.as_binary32()) == w / 0x80_0000);
    assert(binary32::fraction_field(x.as_binary32()) == w % 0x80_0000);
}

/// A conversion cuts the whole 512ths of the number toward zero.
proof fn lemma_of_binary32(bits: u32)
    requires
        !binary32::nan(bits),
    ensures
        Fp8::of_binary32(bits) == Fp8::toward_zero(
            binary32::negative(bits),
            binary32::magnitude(bits) / pow2(140),
        ),
{
    lemma_cut_fields(binary32::exponent_field(bits), binary32::fraction_field(bits));
}

/// Law: every finite FP8 value survives the way to binary32 and back.
pub proof fn law_round_trip(x: Fp8)
    requires
        x.finite(),
    ensures
        Fp8::of_binary32(x.as_binary32()) == x,
{
    lemma_as_binary32(x);
    lemma_of_binary32(x.as_binary32());
    lemma_pow2_pos(140);
    lemma_div_by_multiple(x.units() as int, pow2(140) as int);
    lemma_toward_zero_of_units(x);
}

/// Law: the order of finite FP8 values is the order of their binary32 patterns.
pub proof fn law_conversion_keeps_order(a: Fp8, b: Fp8)
    requires
        a.finite() && b.finite(),
    ensures
        binary32::less(a.as_binary32(), b.as_binary32()) <==> a.value() < b.value(),
{
    let unit = pow2(140) as int;
    lemma_as_binary32(a);
    lemma_as_binary32(b);
    lemma_pow2_pos(140);
    assert(binary32::value(a.as_binary32()) == a.value() * unit) by {
        lemma_mul_unary_negation(a.units() as int, unit);
    }
    assert(binary32::value(b.as_binary32()) == b.value() * unit) by {
        lemma_mul_unary_negation(b.units() as int, unit);
    }
    if a.value() < b.value() {
        lemma_mul_strict_inequality(a.value(), b.value(), unit);
    } else {
        lemma_mul_inequality(b.value(), a.value(), unit);
    }
}

/// Law: among finite values without a sign bit, the larger pattern is the
/// larger number.
pub proof fn law_patterns_are_ordered(a: Fp8, b: Fp8)
    requires
        a.finite() && !a.minus(),
        b.finite() && !b.minus(),
    ensures
        a.0 < b.0 <==> a.value() < b.value(),
        a.0 == b.0 <==> a.value() == b.value(),
{
    lemma_step_ends();
    lemma_units_ordered(a, b);
    lemma_units_ordered(b, a);
}

/// A larger finite pattern has a larger magnitude.
pub proof fn lemma_units_ordered(a: Fp8, b: Fp8)
    requires
        a.finite(),
        b.finite(),
    ensures
        a.pattern() < b.pattern() ==> a.units() < b.units(),
        a.pattern() == b.pattern() ==> a.units() == b.units(),
{
    lemma_step_ends();
    if a.pattern() < b.pattern() {
        if b.pattern() == 0x7E {
            lemma_step_monotone(a.pattern(), 0x78);
        } else {
            lemma_step_monotone(a.pattern(), b.pattern());
        }
    }
}

/// Whole multiples of `unit` in `m`.
#[verifier::spinoff_prover]
proof fn lemma_whole_multiples(m: int, unit: int, bound: int)
    requires
        0 <= m,
        0 < unit,
    ensures
        0 <= m / unit,
        (m / unit) * unit <= m < (m / unit + 1) * unit,
        m >= bound * unit <==> m / unit >= bound,
{
    let n = m / unit;
    lemma_fundamental_div_mod(m, unit);
    lemma_mod_bound(m, unit);
    lemma_mul_is_commutative(n, unit);
    lemma_div_pos_is_pos(m, unit);
    lemma_mul_is_distributive_add_other_way(unit, n, 1);
    if n >= bound {
        lemma_mul_inequality(bound, n, unit);
    } else {
        lemma_mul_inequality(n + 1, bound, unit);
    }
}

/// Law: a conversion never moves a number away from zero, and the next FP8
/// magnitude is already too large.  From 256 on the result saturates.
#[verifier::spinoff_prover]
pub proof fn law_conversion_cuts_toward_zero(bits: u32)
    requires
        !binary32::nan(bits),
    ensures
        ({
            let r = Fp8::of_binary32(bits);
            let m = binary32::magnitude(bits);
            &&& r.finite() && r.minus() == binary32::negative(bits)
            &&& m >= 256 * 512 * pow2(140) ==> r == Fp8::saturated(binary32::negative(bits))
            &&& m < 256 * 512 * pow2(140) ==> {
                &&& r.pattern() < 0x78
                &&& r.units() * pow2(140) <= m < step(r.pattern() + 1) * pow2(140)
            }
        }),
{
    let unit = pow2(140) as int;
    let m = binary32::magnitude(bits) as int;
    let n = (m / unit) as nat;
    lemma_of_binary32(bits);
    lemma_pow2_pos(140);
    lemma_whole_multiples(m, unit, 131072);
    lemma_toward_zero(binary32::negative(bits), n);
    if n < 131072 {
        let r = Fp8::of_binary32(bits);
        lemma_cut_brackets(m, unit, n, r.units(), step(r.pattern() + 1));
    }
}

/// Bounds on the whole multiples are bounds on the number.
proof fn lemma_cut_brackets(m: int, unit: int, n: nat, low: nat, high: nat)
    requires
        0 < unit,
        n * unit <= m < (n + 1) * unit,
        low <= n < high,
    ensures
        low * unit <= m < high * unit,
{
    lemma_mul_inequality(low as int, n as int, unit);
    lemma_mul_inequality((n + 1) as int, high as int, unit);
}

/// Law: three mantissa bits keep the error of a conversion below one eighth of
/// the result for magnitudes from 2^-6 up to 256.
#[verifier::spinoff_prover]
pub proof fn law_conversion_error(bits: u32)
    requires
        !binary32::nan(bits),
        8 * pow2(140) <= binary32::magnitude(bits) < 256 * 512 * pow2(140),
    ensures
        ({
            let kept = Fp8::of_binary32(bits).units() * pow2(140);
            8 * (binary32::magnitude(bits) - kept) < kept
        }),
{
    let unit = pow2(140) as int;
    let m = binary32::magnitude(bits) as int;
    let r = Fp8::of_binary32(bits);
    let p = r.pattern();
    lemma_pow2_pos(140);
    law_conversion_cuts_toward_zero(bits);
    lemma_step_small(8);
    if p < 8 {
        if p + 1 < 8 {
            lemma_step_monotone(p + 1, 8);
        }
        lemma_mul_inequality(step(p + 1) as int, 8, unit);
        assert(false);
    }
    lemma_step_gap(p);
    let low = step(p) as int;
    let high = step(p + 1) as int;
    lemma_mul_inequality(8 * (high - low), low, unit);
    assert(8 * (high - low) * unit == 8 * (high * unit) - 8 * (low * unit)) by (nonlinear_arith);
}

/// From the first normal on, the gap to the next magnitude is at most an eighth.
proof fn lemma_step_gap(p: nat)
    requires
        8 <= p,
    ensures
        8 * (step(p + 1) - step(p)) <= step(p),
    decreases p,
{
    if p < 16 {
        lemma_step_small(p);
        lemma_step_small(p + 1);
    } else {
        lemma_step_gap((p - 8) as nat);
        lemma_step_doubles((p - 8) as nat);
        lemma_step_doubles((p - 7) as nat);
    }
}

/// Law: addition and multiplication commute.
pub proof fn law_arithmetic_commutes(a: Fp8, b: Fp8)
    ensures
        a.sum(b) == b.sum(a),
        a.product(b) == b.product(a),
{
    lemma_mul_is_commutative(a.units() as int, b.units() as int);
}

/// Law: zero is neutral for addition and one for multiplication, on finite
/// values other than negative zero for the sum.
pub proof fn law_neutral_elements(x: Fp8)
    requires
        x.finite(),
    ensures
        x.product(Fp8(Fp8::ONE)) == x,
        x.0 != 0x80 ==> x.sum(Fp8(Fp8::ZERO)) == x,
{
    lemma_step_ends();
    lemma_toward_zero_of_units(x);
    lemma_div_by_multiple(x.units() as int, 512);
    if x.pattern() != 0 && x.pattern() != 0x7E {
        lemma_step_monotone(0, x.pattern());
    }
}

/// Law: the sum of two finite values is what their exact sum, taken as a
/// binary32 number, converts to.
#[verifier::spinoff_prover]
pub proof fn law_sum_is_converted_exact_sum(a: Fp8, b: Fp8, bits: u32)
    requires
        a.finite() && b.finite(),
        binary32::finite(bits),
        binary32::value(bits) == (a.value() + b.value()) * pow2(140),
        a.value() + b.value() == 0 ==> binary32::negative(bits) == (a.minus() && b.minus()),
    ensures
        Fp8::of_binary32(bits) == a.sum(b),
{
    let total = a.value() + b.value();
    let unit = pow2(140) as int;
    lemma_of_binary32(bits);
    lemma_pow2_pos(140);
    if total > 0 {
        lemma_mul_strictly_positive(total, unit);
    } else if total < 0 {
        lemma_mul_strictly_positive(-total, unit);
        lemma_mul_unary_negation(total, unit);
    }
    lemma_div_by_multiple(vstd::math::abs(total) as int, unit);
}

/// Law: the product of two finite values is what their exact product, taken as
/// a binary32 number, converts to.
#[verifier::spinoff_prover]
pub proof fn law_product_is_converted_exact_product(a: Fp8, b: Fp8, bits: u32)
    requires
        a.finite() && b.finite(),
        binary32::finite(bits),
        binary32::negative(bits) == (a.minus() != b.minus()),
        binary32::magnitude(bits) == a.units() * b.units() * pow2(131),
    ensures
        Fp8::of_binary32(bits) == a.product(b),
{
    let exact = (a.units() * b.units()) as int;
    lemma_of_binary32(bits);
    lemma2_to64();
    lemma_pow2_pos(131);
    lemma_pow2_adds(131, 9);
    lemma_div_denominator(exact * pow2(131), pow2(131) as int, 512);
    lemma_div_by_multiple(exact, pow2(131) as int);
}

/// Law: every NaN converts to the one NaN pattern, and nothing else converts to a
/// NaN or an infinity.
pub proof fn law_nans_convert_to_nan(bits: u32)
    ensures
        binary32::nan(bits) ==> Fp8::of_binary32(bits).0 == 0x7F,
        !binary32::nan(bits) ==> Fp8::of_binary32(bits).finite(),
{
    if !binary32::nan(bits) {
        law_conversion_cuts_toward_zero(bits);
    }
}

/// Law: a larger number never converts to a smaller FP8 value.
pub proof fn law_conversion_is_monotone(a: u32, b: u32)
    requires
        !binary32::nan(a) && !binary32::nan(b),
        !binary32::less(b, a),
    ensures
        Fp8::of_binary32(a).value() <= Fp8::of_binary32(b).value(),
{
    let x = Fp8::of_binary32(a);
    let y = Fp8::of_binary32(b);
    law_conversion_cuts_toward_zero(a);
    law_conversion_cuts_toward_zero(b);
    if binary32::magnitude(a) <= binary32::magnitude(b) {
        lemma_magnitudes_convert_in_order(a, b);
    }
    if binary32::magnitude(b) <= binary32::magnitude(a) {
        lemma_magnitudes_convert_in_order(b, a);
    }
    if !binary32::negative(a) && binary32::negative(b) {
        // Both are zero.
        lemma_pow2_pos(140);
        assert(binary32::magnitude(a) == 0 && binary32::magnitude(b) == 0);
        lemma_mul_strictly_positive(131072, pow2(140) as int);
        if x.units() > 0 {
            lemma_mul_strictly_positive(x.units() as int, pow2(140) as int);
        }
        if y.units() > 0 {
            lemma_mul_strictly_positive(y.units() as int, pow2(140) as int);
        }
        assert(x.units() == 0 && y.units() == 0);
    } else if binary32::negative(a) && binary32::negative(b) {
        assert(y.units() <= x.units());
    } else if !binary32::negative(a) {
        assert(x.units() <= y.units());
    }
}

/// A larger magnitude never converts to a smaller one.
proof fn lemma_magnitudes_convert_in_order(a: u32, b: u32)
    requires
        !binary32::nan(a) && !binary32::nan(b),
        binary32::magnitude(a) <= binary32::magnitude(b),
    ensures
        Fp8::of_binary32(a).units() <= Fp8::of_binary32(b).units(),
{
    let x = Fp8::of_binary32(a);
    let y = Fp8::of_binary32(b);
    let unit = pow2(140) as int;
    lemma_pow2_pos(140);
    law_conversion_cuts_toward_zero(a);
    law_conversion_cuts_toward_zero(b);
    lemma_units_bound(x);
    if binary32::magnitude(b) < 256 * 512 * pow2(140) {
        if x.units() > y.units() {
            lemma_units_ordered(x, y);
            assert(y.pattern() < x.pattern());
            if y.pattern() + 1 < x.pattern() {
                lemma_step_monotone(y.pattern() + 1, x.pattern());
            }
            lemma_mul_inequality(step(y.pattern() + 1) as int, step(x.pattern()) as int, unit);
        }
    } else {
        assert(y.units() == 448 * 512);
    }
}

} // verus!
