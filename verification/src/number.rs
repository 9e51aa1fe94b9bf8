//! Web IDL integer conversions of script numbers.
//!
//! A script number is an IEEE 754 double. It is taken here by its 64-bit
//! pattern: one sign bit, eleven exponent bits and 52 fraction bits. A finite
//! pattern stands for `significand * 2^scale` with a sign.

use vstd::arithmetic::div_mod::lemma_truncate_middle;
use vstd::arithmetic::mul::lemma_mul_is_commutative;
use vstd::arithmetic::power2::{
    lemma2_to64, lemma2_to64_rest, lemma_pow2_adds, lemma_pow2_pos, lemma_pow2_strictly_increases,
    pow2,
};
use vstd::bits::{lemma_u64_shl_is_mul, lemma_u64_shr_is_div};
use vstd::prelude::*;

verus! {

/// 2^52.
pub const FRACTION_RANGE: u64 = 0x0010_0000_0000_0000;

/// 2^63.
pub const SIGN_WEIGHT: u64 = 0x8000_0000_0000_0000;

/// 2^64.
pub open spec fn word() -> int {
    0x1_0000_0000_0000_0000
}

/// Whether the sign bit is set.
pub open spec fn is_negative(bits: u64) -> bool {
    bits >= SIGN_WEIGHT
}

/// The eleven exponent bits.
pub open spec fn biased_exponent(bits: u64) -> int {
    (bits as int / FRACTION_RANGE as int) % 2048
}

/// The 52 fraction bits.
pub open spec fn fraction(bits: u64) -> int {
    bits as int % FRACTION_RANGE as int
}

/// Whether `bits` is not a number.
pub open spec fn is_nan(bits: u64) -> bool {
    biased_exponent(bits) == 2047 && fraction(bits) != 0
}

/// Whether `bits` is an infinity.
pub open spec fn is_infinite(bits: u64) -> bool {
    biased_exponent(bits) == 2047 && fraction(bits) == 0
}

/// The integer factor of a finite number: the fraction, with the implied
/// leading one unless the number is subnormal.
pub open spec fn significand(bits: u64) -> int {
    if biased_exponent(bits) == 0 {
        fraction(bits)
    } else {
        FRACTION_RANGE + fraction(bits)
    }
}

/// The power of two that the significand is multiplied by.
pub open spec fn scale(bits: u64) -> int {
    if biased_exponent(bits) == 0 {
        -1074
    } else {
        biased_exponent(bits) - 1075
    }
}

/// The magnitude of a finite number, rounded toward zero.
pub open spec fn truncated_magnitude(bits: u64) -> int {
    if scale(bits) >= 0 {
        significand(bits) * pow2(scale(bits) as nat)
    } else {
        significand(bits) / pow2((-scale(bits)) as nat) as int
    }
}

/// A finite number rounded toward zero.
pub open spec fn truncated(bits: u64) -> int {
    if is_negative(bits) {
        -truncated_magnitude(bits)
    } else {
        truncated_magnitude(bits)
    }
}

/// `value / 2^shift` rounded to the nearest integer, ties to the even one.
pub open spec fn rounded_quotient(value: int, shift: nat) -> int {
    let unit = pow2(shift) as int;
    let quotient = value / unit;
    let rest = value % unit;
    if 2 * rest > unit || (2 * rest == unit && quotient % 2 == 1) {
        quotient + 1
    } else {
        quotient
    }
}

/// The magnitude of a finite number, rounded to the nearest integer with ties
/// to the even one.
pub open spec fn rounded_magnitude(bits: u64) -> int {
    if scale(bits) >= 0 {
        significand(bits) * pow2(scale(bits) as nat)
    } else {
        rounded_quotient(significand(bits), (-scale(bits)) as nat)
    }
}

/// A finite number rounded to the nearest integer with ties to the even one.
pub open spec fn rounded(bits: u64) -> int {
    if is_negative(bits) {
        -rounded_magnitude(bits)
    } else {
        rounded_magnitude(bits)
    }
}

/// The 64-bit two's complement reading of `value`.
pub open spec fn wrap_i64(value: int) -> int {
    let low = value % word();
    if low >= SIGN_WEIGHT {
        low - word()
    } else {
        low
    }
}

/// `value` moved into the 64-bit signed range.
pub open spec fn clamp_i64(value: int) -> int {
    if value > i64::MAX {
        i64::MAX as int
    } else if value < i64::MIN {
        i64::MIN as int
    } else {
        value
    }
}

/// The Web IDL `long long` of a number: zero for NaN, the nearest bound for an
/// infinity, else the truncated value modulo 2^64.
pub open spec fn long_long_of(bits: u64) -> int {
    if is_nan(bits) {
        0
    } else if is_infinite(bits) {
        if is_negative(bits) {
            i64::MIN as int
        } else {
            i64::MAX as int
        }
    } else {
        wrap_i64(truncated(bits))
    }
}

/// The Web IDL `unsigned long` of a number: zero for NaN and negative
/// infinity, the maximum for positive infinity, else the truncated value
/// modulo 2^32.
pub open spec fn unsigned_long_of(bits: u64) -> int {
    if is_nan(bits) {
        0
    } else if is_infinite(bits) {
        if is_negative(bits) {
            0
        } else {
            u32::MAX as int
        }
    } else {
        truncated(bits) % 0x1_0000_0000
    }
}

/// The Web IDL `[Clamp] long long` of a number: zero for NaN, the nearest
/// bound for an infinity, else the rounded value moved into range.
pub open spec fn clamped_long_long_of(bits: u64) -> int {
    if is_nan(bits) {
        0
    } else if is_infinite(bits) {
        if is_negative(bits) {
            i64::MIN as int
        } else {
            i64::MAX as int
        }
    } else {
        clamp_i64(rounded(bits))
    }
}

proof fn lemma_words()
    ensures
        pow2(52) == FRACTION_RANGE,
        pow2(53) == 2 * FRACTION_RANGE,
        pow2(63) == SIGN_WEIGHT,
        pow2(64) == word(),
        pow2(32) == 0x1_0000_0000,
{
    lemma2_to64();
    lemma2_to64_rest();
}

/// The bit pattern, field by field.
fn split(bits: u64) -> (fields: (u64, u64))
    ensures
        fields.0 == biased_exponent(bits),
        fields.1 == fraction(bits),
        fields.0 < 2048,
        fields.1 < FRACTION_RANGE,
{
    ((bits / FRACTION_RANGE) % 2048, bits % FRACTION_RANGE)
}

/// `value * 2^shift` modulo 2^64.
fn shift_left_mod(value: u64, shift: u64) -> (low: u64)
    requires
        shift < 64,
    ensures
        low == (value * pow2(shift as nat)) % word(),
{
    proof {
        lemma_words();
        lemma2_to64();
    }
    if shift == 0 {
        return value;
    }
    let rest: u64 = 64 - shift;
    proof {
        lemma_pow2_pos(rest as nat);
        lemma_pow2_strictly_increases(rest as nat, 64);
        lemma_u64_shl_is_mul(1, rest);
    }
    let unit: u64 = 1u64 << rest;
    let kept: u64 = value % unit;
    proof {
        lemma_pow2_adds(shift as nat, rest as nat);
        lemma_pow2_pos(shift as nat);
        lemma_truncate_middle(value as int, pow2(shift as nat) as int, pow2(rest as nat) as int);
        lemma_mul_is_commutative(value as int, pow2(shift as nat) as int);
        lemma_mul_is_commutative(kept as int, pow2(shift as nat) as int);
        assert(kept * pow2(shift as nat) == (value * pow2(shift as nat)) % word());
        lemma_u64_shl_is_mul(kept, shift);
    }
    kept << shift
}

/// `|trunc(x)| mod 2^64` for a finite `x`.
pub fn magnitude_mod_u64(bits: u64) -> (low: u64)
    requires
        !is_nan(bits),
        !is_infinite(bits),
    ensures
        low == truncated_magnitude(bits) % word(),
{
    let (biased, mantissa) = split(bits);
    proof {
        lemma_words();
    }
    if biased < 1023 {
        // The magnitude is below one.
        proof {
            let shift = (-scale(bits)) as nat;
            assert(shift >= 53);
            if shift > 53 {
                lemma_pow2_strictly_increases(53, shift);
            }
            assert(0 <= significand(bits) < pow2(shift));
            vstd::arithmetic::div_mod::lemma_basic_div(significand(bits), pow2(shift) as int);
        }
        return 0;
    }
    let integer: u64 = FRACTION_RANGE + mantissa;
    if biased >= 1139 {
        // The magnitude is a multiple of 2^64.
        proof {
            let power = scale(bits) as nat;
            lemma_pow2_adds((power - 64) as nat, 64);
            let factor = integer * pow2((power - 64) as nat);
            assert(integer * pow2(power) == factor * word()) by (nonlinear_arith)
                requires
                    pow2(power) == pow2((power - 64) as nat) * word(),
                    factor == integer * pow2((power - 64) as nat),
            ;
            vstd::arithmetic::div_mod::lemma_mod_multiples_basic(factor, word());
        }
        return 0;
    }
    if biased >= 1075 {
        shift_left_mod(integer, biased - 1075)
    } else {
        let shift: u64 = 1075 - biased;
        proof {
            lemma_u64_shr_is_div(integer, shift);
            lemma_pow2_pos(shift as nat);
        }
        let low: u64 = integer >> shift;
        assert(low == truncated_magnitude(bits));
        low
    }
}

/// `trunc(x) mod 2^64` for a finite `x`.
pub fn f64_to_u64_wrap(bits: u64) -> (low: u64)
    requires
        !is_nan(bits),
        !is_infinite(bits),
    ensures
        low == truncated(bits) % word(),
{
    let magnitude: u64 = magnitude_mod_u64(bits);
    if bits >= SIGN_WEIGHT && magnitude != 0 {
        proof {
            lemma_negated_mod(truncated_magnitude(bits));
        }
        u64::MAX - magnitude + 1
    } else {
        proof {
            if is_negative(bits) {
                lemma_negated_mod(truncated_magnitude(bits));
            }
        }
        magnitude
    }
}

proof fn lemma_negated_mod(value: int)
    ensures
        value % word() == 0 ==> (-value) % word() == 0,
        value % word() != 0 ==> (-value) % word() == word() - value % word(),
{
    let low = value % word();
    let high = value / word();
    assert(value == high * word() + low);
    if low == 0 {
        assert((-value) % word() == 0) by {
            assert(-value == (-high) * word());
            vstd::arithmetic::div_mod::lemma_mod_multiples_basic(-high, word());
        }
    } else {
        assert(-value == (-high - 1) * word() + (word() - low));
        vstd::arithmetic::div_mod::lemma_fundamental_div_mod_converse(
            -value,
            word(),
            -high - 1,
            word() - low,
        );
    }
}

/// Converts the number with bit pattern `bits` to a Web IDL `long long`.
pub fn f64_to_long_long(bits: u64) -> (value: i64)
    ensures
        value == long_long_of(bits),
{
    let (biased, mantissa) = split(bits);
    if biased == 2047 {
        if mantissa != 0 {
            return 0;
        }
        if bits >= SIGN_WEIGHT {
            return i64::MIN;
        }
        return i64::MAX;
    }
    let low: u64 = f64_to_u64_wrap(bits);
    if low < SIGN_WEIGHT {
        low as i64
    } else {
        (low as i128 - 0x1_0000_0000_0000_0000i128) as i64
    }
}

/// Converts the number with bit pattern `bits` to a Web IDL `unsigned long`.
pub fn f64_to_unsigned_long(bits: u64) -> (value: u32)
    ensures
        value == unsigned_long_of(bits),
{
    let (biased, mantissa) = split(bits);
    if biased == 2047 {
        if mantissa != 0 || bits >= SIGN_WEIGHT {
            return 0;
        }
        return u32::MAX;
    }
    let low: u64 = f64_to_u64_wrap(bits);
    proof {
        vstd::arithmetic::div_mod::lemma_mod_mod(truncated(bits), 0x1_0000_0000, 0x1_0000_0000);
    }
    (low % 0x1_0000_0000) as u32
}

/// Converts the number with bit pattern `bits` to a Web IDL
/// `[Clamp] long long`.
pub fn f64_to_clamped_long_long(bits: u64) -> (value: i64)
    ensures
        value == clamped_long_long_of(bits),
{
    let (biased, mantissa) = split(bits);
    proof {
        lemma_words();
    }
    if biased == 2047 {
        if mantissa != 0 {
            return 0;
        }
        if bits >= SIGN_WEIGHT {
            return i64::MIN;
        }
        return i64::MAX;
    }
    if biased >= 1086 {
        // The magnitude is at least 2^63.
        proof {
            let power = scale(bits) as nat;
            assert(power >= 11);
            if power > 11 {
                lemma_pow2_strictly_increases(11, power);
            }
            lemma2_to64();
            assert(significand(bits) * pow2(power) >= FRACTION_RANGE * 2048) by (nonlinear_arith)
                requires
                    significand(bits) >= FRACTION_RANGE,
                    pow2(power) >= 2048,
            ;
        }
        if bits >= SIGN_WEIGHT {
            return i64::MIN;
        }
        return i64::MAX;
    }
    let magnitude: u64 = rounded_below_2_63(bits, biased, mantissa);
    if bits >= SIGN_WEIGHT {
        -(magnitude as i64)
    } else {
        magnitude as i64
    }
}

/// The rounded magnitude of a number below 2^63.
fn rounded_below_2_63(bits: u64, biased: u64, mantissa: u64) -> (magnitude: u64)
    requires
        biased == biased_exponent(bits),
        mantissa == fraction(bits),
        biased < 1086,
    ensures
        magnitude == rounded_magnitude(bits),
        magnitude < SIGN_WEIGHT,
{
    proof {
        lemma_words();
        lemma2_to64();
        lemma2_to64_rest();
    }
    if biased < 1022 {
        // The magnitude is below one half.
        proof {
            let shift = (-scale(bits)) as nat;
            assert(shift >= 54);
            if shift > 54 {
                lemma_pow2_strictly_increases(54, shift);
            }
            assert(0 <= 2 * significand(bits) < pow2(shift));
            vstd::arithmetic::div_mod::lemma_basic_div(significand(bits), pow2(shift) as int);
            vstd::arithmetic::div_mod::lemma_small_mod(significand(bits) as nat, pow2(shift));
        }
        return 0;
    }
    let integer: u64 = FRACTION_RANGE + mantissa;
    if biased >= 1075 {
        let shift: u64 = biased - 1075;
        proof {
            if shift < 10 {
                lemma_pow2_strictly_increases(shift as nat, 10);
            }
            lemma_pow2_pos(shift as nat);
            assert(integer * pow2(shift as nat) < 2 * FRACTION_RANGE * 1024) by (nonlinear_arith)
                requires
                    integer < 2 * FRACTION_RANGE,
                    0 < pow2(shift as nat) <= 1024,
            ;
            lemma_u64_shl_is_mul(integer, shift);
        }
        return integer << shift;
    }
    let shift: u64 = 1075 - biased;
    proof {
        lemma_pow2_pos(shift as nat);
        if shift < 53 {
            lemma_pow2_strictly_increases(shift as nat, 53);
        }
        lemma_u64_shl_is_mul(1, shift);
        lemma_u64_shr_is_div(integer, shift);
    }
    let unit: u64 = 1u64 << shift;
    let quotient: u64 = integer / unit;
    let rest: u64 = integer % unit;
    proof {
        assert(quotient <= integer) by (nonlinear_arith)
            requires
                quotient == integer / unit,
                unit >= 1,
        ;
    }
    if 2 * rest > unit || (2 * rest == unit && quotient % 2 == 1) {
        quotient + 1
    } else {
        quotient
    }
}

/// The two plain conversions agree modulo 2^32 on every finite number.
pub proof fn lemma_conversions_agree(bits: u64)
    requires
        !is_nan(bits),
        !is_infinite(bits),
    ensures
        long_long_of(bits) % 0x1_0000_0000 == unsigned_long_of(bits),
{
    let value = truncated(bits);
    let low = value % word();
    vstd::arithmetic::div_mod::lemma_mod_mod(value, 0x1_0000_0000, 0x1_0000_0000);
}

/// On numbers that are integers in the signed 64-bit range the plain and the
/// clamped conversion agree.
pub proof fn lemma_integers_convert_exactly(bits: u64)
    requires
        !is_nan(bits),
        !is_infinite(bits),
        truncated(bits) == rounded(bits),
        i64::MIN <= truncated(bits) <= i64::MAX,
    ensures
        long_long_of(bits) == clamped_long_long_of(bits) == truncated(bits),
{
    let value = truncated(bits);
    if value >= 0 {
        vstd::arithmetic::div_mod::lemma_small_mod(value as nat, word() as nat);
    } else {
        vstd::arithmetic::div_mod::lemma_fundamental_div_mod_converse(
            value,
            word(),
            -1,
            value + word(),
        );
    }
}


/// The plain conversions drop the fraction of a number and wrap: a number whose
/// exponent is `exponent` and whose significand, read as an integer, is
/// `significand` stands for `significand * 2^exponent`; the integer part of its
/// magnitude is the `whole` that the two inequalities single out.
pub proof fn lemma_plain_conversions_truncate_and_wrap(
    bits: u64,
    negative: bool,
    exponent: int,
    significand: int,
    whole: int,
    signed: i64,
    unsigned: u32,
)
    requires
        0x10_0000_0000_0000 <= significand < 0x20_0000_0000_0000,
        -1074 <= exponent <= 971,
        bits == (if negative {
            0x8000_0000_0000_0000int
        } else {
            0
        }) + (exponent + 1075) * 0x10_0000_0000_0000 + (significand - 0x10_0000_0000_0000),
        exponent >= 0 ==> whole == significand * pow2(exponent as nat),
        exponent < 0 ==> whole * pow2((-exponent) as nat) <= significand < (whole + 1) * pow2(
            (-exponent) as nat,
        ),
        call_ensures(f64_to_long_long, (bits,), signed),
        call_ensures(f64_to_unsigned_long, (bits,), unsigned),
    ensures
        negative ==> (signed + whole) % 0x1_0000_0000_0000_0000 == 0 && (unsigned + whole)
            % 0x1_0000_0000 == 0,
        !negative ==> (signed - whole) % 0x1_0000_0000_0000_0000 == 0 && (unsigned - whole)
            % 0x1_0000_0000 == 0,
{
    lemma_fields(bits, negative, exponent + 1075, significand - 0x10_0000_0000_0000);
    if exponent < 0 {
        lemma_whole_part(significand, whole, (-exponent) as nat);
    }
    let value = if negative {
        -whole
    } else {
        whole
    };
    assert(truncated(bits) == value);
    vstd::arithmetic::div_mod::lemma_fundamental_div_mod(value, 0x1_0000_0000_0000_0000);
    vstd::arithmetic::div_mod::lemma_fundamental_div_mod(value, 0x1_0000_0000);
    let high = value / 0x1_0000_0000_0000_0000;
    let low = value / 0x1_0000_0000;
    assert(word() == 0x1_0000_0000_0000_0000);
    assert(signed == value - 0x1_0000_0000_0000_0000 * high || signed == value
        - 0x1_0000_0000_0000_0000 * (high + 1));
    assert(unsigned == value - 0x1_0000_0000 * low);
}

proof fn lemma_fields(bits: u64, negative: bool, biased: int, rest: int)
    requires
        0 <= biased < 2048,
        0 <= rest < 0x10_0000_0000_0000,
        bits == (if negative {
            0x8000_0000_0000_0000int
        } else {
            0
        }) + biased * 0x10_0000_0000_0000 + rest,
    ensures
        is_negative(bits) == negative,
        biased_exponent(bits) == biased,
        fraction(bits) == rest,
{
}

proof fn lemma_whole_part(significand: int, whole: int, shift: nat)
    requires
        whole * pow2(shift) <= significand < (whole + 1) * pow2(shift),
    ensures
        whole == significand / pow2(shift) as int,
        significand % pow2(shift) as int == significand - whole * pow2(shift),
{
    lemma_pow2_pos(shift);
    let unit = pow2(shift) as int;
    assert((whole + 1) * unit == whole * unit + unit) by (nonlinear_arith);
    lemma_mul_is_commutative(whole, unit);
    vstd::arithmetic::div_mod::lemma_fundamental_div_mod_converse(
        significand,
        unit,
        whole,
        significand - whole * unit,
    );
}

/// The clamped conversion gives the integer nearest to the number, the even one
/// of two that are as near, and the bound of the range that a larger magnitude
/// lies beyond.
pub proof fn lemma_clamped_conversion_is_the_nearest(
    bits: u64,
    negative: bool,
    exponent: int,
    significand: int,
    whole: int,
    clamped: i64,
)
    requires
        0x10_0000_0000_0000 <= significand < 0x20_0000_0000_0000,
        -1074 <= exponent <= 971,
        bits == (if negative {
            0x8000_0000_0000_0000int
        } else {
            0
        }) + (exponent + 1075) * 0x10_0000_0000_0000 + (significand - 0x10_0000_0000_0000),
        exponent >= 0 ==> whole == significand * pow2(exponent as nat),
        exponent < 0 ==> whole * pow2((-exponent) as nat) <= significand < (whole + 1) * pow2(
            (-exponent) as nat,
        ),
        call_ensures(f64_to_clamped_long_long, (bits,), clamped),
    ensures
        exponent >= 0 && !negative ==> clamped == if whole > i64::MAX {
            i64::MAX as int
        } else {
            whole
        },
        exponent >= 0 && negative ==> clamped == if -whole < i64::MIN {
            i64::MIN as int
        } else {
            -whole
        },
        exponent < 0 ==> ({
            let unit = pow2((-exponent) as nat) as int;
            let above = 2 * (significand - whole * unit);
            let nearest = if above < unit || (above == unit && whole % 2 == 0) {
                whole
            } else {
                whole + 1
            };
            clamped == if negative {
                -nearest
            } else {
                nearest
            }
        }),
{
    lemma_fields(bits, negative, exponent + 1075, significand - 0x10_0000_0000_0000);
    if exponent < 0 {
        lemma_whole_part(significand, whole, (-exponent) as nat);
        let unit = pow2((-exponent) as nat) as int;
        lemma_pow2_pos((-exponent) as nat);
        assert(whole <= significand) by (nonlinear_arith)
            requires
                whole * unit <= significand,
                significand >= 0,
                unit >= 1,
        ;
        assert(whole >= 0) by (nonlinear_arith)
            requires
                significand < (whole + 1) * unit,
                significand >= 0,
                unit >= 1,
        ;
    }
}

/// What is no number converts to zero, infinities to the ends of the range, and
/// what is smaller than any number with a full significand to zero.
pub proof fn lemma_special_numbers_convert(
    bits: u64,
    negative: bool,
    biased: int,
    rest: int,
    signed: i64,
    unsigned: u32,
    clamped: i64,
)
    requires
        0 <= rest < 0x10_0000_0000_0000,
        biased == 0 || biased == 2047,
        bits == (if negative {
            0x8000_0000_0000_0000int
        } else {
            0
        }) + biased * 0x10_0000_0000_0000 + rest,
        call_ensures(f64_to_long_long, (bits,), signed),
        call_ensures(f64_to_unsigned_long, (bits,), unsigned),
        call_ensures(f64_to_clamped_long_long, (bits,), clamped),
    ensures
        biased == 0 || rest > 0 ==> signed == 0 && unsigned == 0 && clamped == 0,
        biased == 2047 && rest == 0 && !negative ==> signed == i64::MAX && unsigned == u32::MAX
            && clamped == i64::MAX,
        biased == 2047 && rest == 0 && negative ==> signed == i64::MIN && unsigned == 0 && clamped
            == i64::MIN,
{
    lemma_fields(bits, negative, biased, rest);
    if biased == 0 {
        lemma_words();
        lemma_pow2_strictly_increases(53, 1074);
        lemma_whole_part(rest, 0, 1074);
        assert(truncated_magnitude(bits) == 0);
        assert(rounded_magnitude(bits) == 0);
        vstd::arithmetic::div_mod::lemma_small_mod(0, word() as nat);
    }
}

} // verus!
