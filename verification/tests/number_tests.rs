use boa_fapi::number::{
    f64_to_clamped_long_long, f64_to_long_long, f64_to_u64_wrap, f64_to_unsigned_long,
    magnitude_mod_u64,
};

fn clamped(value: f64) -> i64 {
    f64_to_clamped_long_long(value.to_bits())
}

fn long_long(value: f64) -> i64 {
    f64_to_long_long(value.to_bits())
}

fn unsigned_long(value: f64) -> u32 {
    f64_to_unsigned_long(value.to_bits())
}

#[test]
fn clamp_special_values() {
    assert_eq!(clamped(f64::NAN), 0);
    assert_eq!(clamped(f64::INFINITY), i64::MAX);
    assert_eq!(clamped(f64::NEG_INFINITY), i64::MIN);
}

#[test]
fn clamp_rounds_ties_to_even() {
    assert_eq!(clamped(0.0), 0);
    assert_eq!(clamped(-0.0), 0);
    assert_eq!(clamped(0.4), 0);
    assert_eq!(clamped(0.5), 0);
    assert_eq!(clamped(0.6), 1);
    assert_eq!(clamped(1.5), 2);
    assert_eq!(clamped(2.5), 2);
    assert_eq!(clamped(3.5), 4);
    assert_eq!(clamped(-0.5), 0);
    assert_eq!(clamped(-1.5), -2);
    assert_eq!(clamped(-2.5), -2);
}

#[test]
fn clamp_bounds_on_huge_magnitude() {
    assert_eq!(clamped(1e300), i64::MAX);
    assert_eq!(clamped(-1e300), i64::MIN);
    assert_eq!(clamped(9_223_372_036_854_775_808.0), i64::MAX);
    assert_eq!(clamped(1e21), i64::MAX);
}

#[test]
fn long_long_special_values() {
    assert_eq!(long_long(f64::NAN), 0);
    assert_eq!(long_long(f64::INFINITY), i64::MAX);
    assert_eq!(long_long(f64::NEG_INFINITY), i64::MIN);
}

#[test]
fn long_long_truncates_toward_zero() {
    assert_eq!(long_long(2.9), 2);
    assert_eq!(long_long(-2.9), -2);
    assert_eq!(long_long(0.999), 0);
    assert_eq!(long_long(-0.999), 0);
    assert_eq!(long_long(123.0), 123);
    assert_eq!(long_long(-123.0), -123);
}

#[test]
fn long_long_wraps_modulo_2pow64() {
    assert_eq!(long_long(9_223_372_036_854_775_808.0), i64::MIN);
    assert_eq!(long_long(13_835_058_055_282_163_712.0), -4_611_686_018_427_387_904);
    assert_eq!(long_long(18_446_744_073_709_551_616.0), 0);
    assert_eq!(long_long(18_446_744_073_709_555_712.0), 4_096);
    assert_eq!(long_long(-1.0), -1);
    assert_eq!(long_long(55_340_232_221_128_654_848.0), 0);
}

#[test]
fn unsigned_long_special_values() {
    assert_eq!(unsigned_long(f64::NAN), 0);
    assert_eq!(unsigned_long(f64::INFINITY), u32::MAX);
    assert_eq!(unsigned_long(f64::NEG_INFINITY), 0);
}

#[test]
fn unsigned_long_wraps_modulo_2pow32() {
    assert_eq!(unsigned_long(-1.0), u32::MAX);
    assert_eq!(unsigned_long(4_294_967_296.0), 0);
    assert_eq!(unsigned_long(4_294_967_297.0), 1);
    assert_eq!(unsigned_long(-4_294_967_295.0), 1);
    assert_eq!(unsigned_long(2.9), 2);
    assert_eq!(unsigned_long(1e10), 1_410_065_408);
    assert_eq!(unsigned_long(4_294_967_304.0), 8);
    assert_eq!(unsigned_long(8_589_934_592.0), 0);
}

#[test]
fn conversions_agree_on_integers() {
    for value in [-5_i64, -1, 0, 1, 7, 4096, 1 << 52] {
        let number = value as f64;
        assert_eq!(clamped(number), value);
        assert_eq!(long_long(number), value);
        assert_eq!(unsigned_long(number), value as u32);
    }
}

#[test]
fn wrapping_keeps_the_low_bits() {
    assert_eq!(magnitude_mod_u64(3.75_f64.to_bits()), 3);
    assert_eq!(magnitude_mod_u64((-3.75_f64).to_bits()), 3);
    assert_eq!(f64_to_u64_wrap((-3.0_f64).to_bits()), u64::MAX - 2);
    assert_eq!(f64_to_u64_wrap(5e-324_f64.to_bits()), 0);
}

#[test]
fn clamping_and_wrapping_differ_beyond_the_range() {
    assert_eq!(clamped(9_223_372_036_854_775_808.0), i64::MAX);
    assert_eq!(long_long(9_223_372_036_854_775_808.0), i64::MIN);
}
