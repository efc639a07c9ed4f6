use decimal_rs::{Decimal, DecimalConvertError};
use std::convert::TryFrom;
use std::convert::TryInto;
use std::fmt::Debug;

const MAX_I128_REPR: i128 = 99_9999_9999_9999_9999_9999_9999_9999_9999_9999_i128;

fn assert_from<V: Into<Decimal>>(val: V, expected: &str) {
    let decimal = val.into();
    let expected = expected.parse::<Decimal>().unwrap();
    assert_eq!(decimal, expected);
}

fn assert_try_from<V: TryInto<Decimal, Error = DecimalConvertError>>(val: V, expected: &str) {
    let decimal = val.try_into().unwrap();
    let expected = expected.parse::<Decimal>().unwrap();
    assert_eq!(decimal, expected);
}

fn assert_try_from_overflow<V: TryInto<Decimal, Error = DecimalConvertError>>(val: V) {
    let result = val.try_into();
    assert_eq!(result.unwrap_err(), DecimalConvertError::Overflow);
}

fn assert_try_into<S: AsRef<str>, T: TryFrom<Decimal, Error = DecimalConvertError> + PartialEq + Debug>(
    s: S,
    expected: T,
) {
    let decimal = s.as_ref().parse::<Decimal>().unwrap();
    let val = T::try_from(decimal).unwrap();
    assert_eq!(val, expected);
}

fn assert_try_into_overflow<T: TryFrom<Decimal, Error = DecimalConvertError> + Debug>(s: &str) {
    let n = s.parse::<Decimal>().unwrap();
    let result = T::try_from(n);
    assert_eq!(result.unwrap_err(), DecimalConvertError::Overflow);
}

#[test]
fn test_from_i8() {
        assert_from(0i8, "0");
        assert_from(1i8, "1");
        assert_from(-1i8, "-1");
        assert_from(127i8, "127");
        assert_from(-128i8, "-128");
    }

#[test]
fn test_from_i16() {
        assert_from(0i16, "0");
        assert_from(1i16, "1");
        assert_from(-1i16, "-1");
        assert_from(32767i16, "32767");
        assert_from(-32768i16, "-32768");
    }

#[test]
fn test_from_i32() {
        assert_from(0i32, "0");
        assert_from(1i32, "1");
        assert_from(-1i32, "-1");
        assert_from(2147483647i32, "2147483647");
        assert_from(-2147483647i32, "-2147483647");
    }

#[test]
fn test_from_i64() {
        assert_from(0i64, "0");
        assert_from(1i64, "1");
        assert_from(-1i64, "-1");
        assert_from(9223372036854775807i64, "9223372036854775807");
        assert_from(-9223372036854775808i64, "-9223372036854775808");
    }

#[test]
fn test_from_i128() {
        assert_try_from(0i128, "0");
        assert_try_from(1i128, "1");
        assert_try_from(-1i128, "-1");
        assert_try_from(MAX_I128_REPR, "99999999999999999999999999999999999999");
        assert_try_from(-MAX_I128_REPR, "-99999999999999999999999999999999999999");
        assert_try_from_overflow(170141183460469231731687303715884105727_i128);
        assert_try_from_overflow(-170141183460469231731687303715884105728_i128);
    }

#[test]
fn test_from_u8() {
        assert_from(0u8, "0");
        assert_from(1u8, "1");
        assert_from(255u8, "255");
    }

#[test]
fn test_from_u16() {
        assert_from(0u16, "0");
        assert_from(1u16, "1");
        assert_from(65535u16, "65535");
    }

#[test]
fn test_from_u32() {
        assert_from(0u32, "0");
        assert_from(1u32, "1");
        assert_from(4294967295u32, "4294967295");
    }

#[test]
fn test_from_u64() {
        assert_from(0u64, "0");
        assert_from(1u64, "1");
        assert_from(18446744073709551615u64, "18446744073709551615");
    }

#[test]
fn test_from_u128() {
        assert_try_from(0u128, "0");
        assert_try_from(1u128, "1");
        assert_try_from(MAX_I128_REPR as u128, "99999999999999999999999999999999999999");
        assert_try_from_overflow(340282366920938463463374607431768211455_u128);
    }

#[test]
fn test_from_bool() {
        assert_from(true, "1");
        assert_from(false, "0");
    }

#[test]
fn test_from_usize() {
        assert_from(0usize, "0");
        assert_from(1usize, "1");
        if std::mem::size_of::<usize>() == 8 {
            assert_from(18446744073709551615usize, "18446744073709551615");
        } else if std::mem::size_of::<usize>() == 4 {
            assert_from(4294967295usize, "4294967295u32");
        }
    }

#[test]
fn test_from_isize() {
        assert_from(0isize, "0");
        assert_from(1isize, "1");
        if std::mem::size_of::<isize>() == 8 {
            assert_from(9223372036854775807isize, "9223372036854775807");
            assert_from(-9223372036854775808isize, "-9223372036854775808");
        } else if std::mem::size_of::<isize>() == 4 {
            assert_from(2147483647isize, "2147483647");
            assert_from(-2147483648isize, "-2147483648");
        }
    }

#[test]
fn test_into_u128() {
        assert_try_into("0", 0u128);
        assert_try_into("1", 1u128);
        assert_try_into(
            "99999999999999999999999999999999999999",
            99_9999_9999_9999_9999_9999_9999_9999_9999_9999_u128,
        );
        assert_try_into_overflow::<u128>("1e39");
        assert_try_into_overflow::<u128>("-1");
    }

#[test]
fn test_into_i128() {
        assert_try_into("0", 0i128);
        assert_try_into("1", 1i128);
        assert_try_into("-1", -1i128);
        assert_try_into(
            "99999999999999999999999999999999999999",
            99_9999_9999_9999_9999_9999_9999_9999_9999_9999_i128,
        );
        assert_try_into_overflow::<i128>("1e39");
    }

#[test]
fn test_into_u8() {
        assert_try_into("0", 0u8);
        assert_try_into("1", 1u8);
        assert_try_into("255", 255u8);
        assert_try_into_overflow::<u8>("256");
        assert_try_into_overflow::<u8>("-1");
    }

#[test]
fn test_into_u16() {
        assert_try_into("0", 0u16);
        assert_try_into("1", 1u16);
        assert_try_into("65535", 65535u16);
        assert_try_into_overflow::<u16>("65536");
        assert_try_into_overflow::<u16>("-1");
    }

#[test]
fn test_into_u32() {
        assert_try_into("0", 0u32);
        assert_try_into("1", 1u32);
        assert_try_into("4294967295", 4294967295u32);
        assert_try_into_overflow::<u32>("4294967296");
        assert_try_into_overflow::<u32>("-1");
    }

#[test]
fn test_into_u64() {
        assert_try_into("0", 0u64);
        assert_try_into("1", 1u64);
        assert_try_into("18446744073709551615", 18446744073709551615u64);
        assert_try_into_overflow::<u64>("18446744073709551616");
        assert_try_into_overflow::<u64>("-1");
    }

#[test]
fn test_into_i8() {
        assert_try_into("0", 0i8);
        assert_try_into("1", 1i8);
        assert_try_into("-1", -1i8);
        assert_try_into("127", 127i8);
        assert_try_into("-128", -128);
        assert_try_into_overflow::<i8>("128");
        assert_try_into_overflow::<i8>("-129");
    }

#[test]
fn test_into_i16() {
        assert_try_into("0", 0i16);
        assert_try_into("1", 1i16);
        assert_try_into("-1", -1i16);
        assert_try_into("32767", 32767i16);
        assert_try_into("-32768", -32768i16);
        assert_try_into_overflow::<i16>("32768");
        assert_try_into_overflow::<i16>("-32769");
    }

#[test]
fn test_into_i32() {
        assert_try_into("0", 0i32);
        assert_try_into("1", 1i32);
        assert_try_into("-1", -1i32);
        assert_try_into("2147483647", 2147483647i32);
        assert_try_into("-2147483648", -2147483648i32);
        assert_try_into_overflow::<i32>("2147483648");
        assert_try_into_overflow::<i32>("-2147483649");
    }

#[test]
fn test_into_i64() {
        assert_try_into("0", 0i64);
        assert_try_into("1", 1i64);
        assert_try_into("-1", -1i64);
        assert_try_into("9223372036854775807", 9223372036854775807i64);
        assert_try_into("-9223372036854775808", -9223372036854775808i64);
        assert_try_into_overflow::<i64>("9223372036854775808");
        assert_try_into_overflow::<i64>("-9223372036854775809");
    }

fn from_f32_is(v: f32, expected: &str) {
    assert_eq!(Decimal::from_f32_bits(v.to_bits()).unwrap(), expected.parse::<Decimal>().unwrap());
}

fn from_f32_overflows(v: f32) {
    assert_eq!(Decimal::from_f32_bits(v.to_bits()).unwrap_err(), DecimalConvertError::Overflow);
}

fn from_f64_is(v: f64, expected: &str) {
    assert_eq!(Decimal::from_f64_bits(v.to_bits()).unwrap(), expected.parse::<Decimal>().unwrap());
}

fn from_f64_overflows(v: f64) {
    assert_eq!(Decimal::from_f64_bits(v.to_bits()).unwrap_err(), DecimalConvertError::Overflow);
}

#[test]
#[allow(clippy::excessive_precision)]
fn test_try_from_f32() {
        from_f32_overflows(std::f32::INFINITY);
        from_f32_overflows(std::f32::NEG_INFINITY);
        from_f32_is(0.0f32, "0");
        from_f32_is(-0.0f32, "0");
        from_f32_is(0.000001f32, "0.000000999999997");
        from_f32_is(0.0000001f32, "0.000000100000001");
        from_f32_is(0.555555f32, "0.555554986");
        from_f32_is(0.5555555f32, "0.555555522");
        from_f32_is(0.999999f32, "0.999998987");
        from_f32_is(0.9999999f32, "0.999999881");
        from_f32_is(1.0f32, "1");
        from_f32_is(1.00001f32, "1.00001001");
        from_f32_is(1.000001f32, "1.00000095");
        from_f32_is(1.555555f32, "1.55555499");
        from_f32_is(1.5555555f32, "1.55555546");
        from_f32_is(1.99999f32, "1.99998999");
        from_f32_is(1.999999f32, "1.99999905");
        from_f32_is(1e-6f32, "0.000000999999997");
        from_f32_is(1e-10f32, "0.000000000100000001");
        from_f32_is(1.23456789e10f32, "12345678848");
        from_f32_is(1.23456789e-10f32, "0.000000000123456786");
        from_f32_is(std::f32::consts::PI, "3.14159274");
    }

#[test]
#[allow(clippy::excessive_precision)]
fn test_try_from_f64() {
        from_f64_overflows(std::f64::INFINITY);
        from_f64_overflows(std::f64::NEG_INFINITY);
        from_f64_is(0.0f64, "0");
        from_f64_is(-0.0f64, "0");
        from_f64_is(0.000000000000001f64, "0.0000000000000010000000000000001");
        from_f64_is(0.0000000000000001f64, "0.000000000000000099999999999999998");
        from_f64_is(0.555555555555555f64, "0.55555555555555503");
        from_f64_is(0.5555555555555556f64, "0.55555555555555558");
        from_f64_is(0.999999999999999f64, "0.999999999999999");
        from_f64_is(0.9999999999999999f64, "0.99999999999999989");
        from_f64_is(1.0f64, "1");
        from_f64_is(1.00000000000001f64, "1.00000000000001");
        from_f64_is(1.000000000000001f64, "1.0000000000000011"); //
        from_f64_is(1.55555555555555f64, "1.55555555555555");
        from_f64_is(1.555555555555556f64, "1.555555555555556"); //
        from_f64_is(1.99999999999999f64, "1.99999999999999");
        from_f64_is(1.999999999999999f64, "1.9999999999999989"); //
        from_f64_is(1e-6f64, "0.00000099999999999999995");
        from_f64_is(1e-20f64, "0.0000000000000000000099999999999999995");
        from_f64_is(1.234567890123456789e20f64, "123456789012345683968");
        from_f64_is(1.234567890123456789e-20f64, "0.000000000000000000012345678901234569");
        from_f64_is(std::f64::consts::PI, "3.1415926535897931");
    }

#[test]
fn nan_bits_are_invalid() {
    assert_eq!(Decimal::from_f64_bits(f64::NAN.to_bits()).unwrap_err(), DecimalConvertError::Invalid);
    assert_eq!(Decimal::from_f32_bits(f32::NAN.to_bits()).unwrap_err(), DecimalConvertError::Invalid);
    assert_eq!(Decimal::from_f64_bits(1e39f64.to_bits()).unwrap_err(), DecimalConvertError::Overflow);
}
