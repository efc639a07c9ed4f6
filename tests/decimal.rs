use decimal_rs::{Decimal, DecimalConvertError};
use std::collections::hash_map::DefaultHasher;
use std::hash::{Hash, Hasher};

fn d(s: &str) -> Decimal {
    s.parse::<Decimal>().unwrap()
}

#[test]
fn test_cmp() {
    assert!(d("0") == d("0"));
    assert!(d("-1") < d("1"));
    assert!(d("1") > d("-1"));
    assert!(d("1.1") == d("1.1"));
    assert!(d("1.2") > d("1.1"));
    assert!(d("-1.2") < d("1.1"));
    assert!(d("1.1") > d("-1.2"));
    assert!(d("1") < d("1e39"));
    assert!(d("1") > d("1e-39"));
    assert!(d("1.0e-100") >= d("1.0e-101"));
    assert!(d("1.0e-101") <= d("1.0e-100"));
    assert!(d("1.0e-100") != d("1.0e-101"));
    assert!(d("1.12") < d("1.2"));
    assert!(d("1.2") > d("1.12"));
    assert!(d("-1.2") < d("-1.12"));
    assert!(d("-1.12") > d("-1.2"));
    assert!(d("-1.12") < d("1.2"));
    assert!(d("1.12") > d("-1.2"));
    assert!(d("0.000000001") < d("100000000"));
    assert!(d("100000000") > d("0.000000001"));
    assert!(d("9999999999999999999999999999999999999.9") > d("9.9999999999999999999999999999999999999"));
    assert!(d("9.9999999999999999999999999999999999999") > d("0"));
    assert!(d("9.9999999999999999999999999999999999999") > d("1"));
    assert!(d("-9999999999999999999999999999999999999.9") < d("-9.9999999999999999999999999999999999999"));
    assert!(d("-9.9999999999999999999999999999999999999") < d("0"));
    assert!(d("-9.9999999999999999999999999999999999999") < d("1"));
    assert!(d("4703178999618078116505370421100e39") > d("0"));
    assert!(d("4703178999618078116505370421100e-39") > d("0"));
    assert!(d("-4703178999618078116505370421100e39") < d("0"));
    assert!(d("-4703178999618078116505370421100e-39") < d("0"));
    assert!(d("0") < d("4703178999618078116505370421100e39"));
    assert!(d("0") < d("4703178999618078116505370421100e-39"));
    assert!(d("0") > d("-4703178999618078116505370421100e39"));
    assert!(d("0") > d("-4703178999618078116505370421100e-39"));
}

        fn test_precision_assert_precision(val: &str, expected: u8) {
            let dec = val.parse::<Decimal>().unwrap();
            assert_eq!(dec.precision(), expected);
        }

#[test]
fn test_precision() {

        test_precision_assert_precision("0.0", 1);
        test_precision_assert_precision("1", 1);
        test_precision_assert_precision("10", 2);
        test_precision_assert_precision("1.230", 3);
        test_precision_assert_precision("123456123456", 12);
        test_precision_assert_precision("123456.123456", 12);
        test_precision_assert_precision("-123456.123456", 12);
        test_precision_assert_precision("99999999999999999999999999999999999999", 38);
    }

        fn test_abs_assert_abs(val: &str, expected: &str) {
            let abs_val = val.parse::<Decimal>().unwrap().abs();
            let expected = expected.parse::<Decimal>().unwrap();
            assert_eq!(abs_val, expected);
        }

#[test]
fn test_abs() {

        test_abs_assert_abs("0.0", "0");
        test_abs_assert_abs("123456.123456", "123456.123456");
        test_abs_assert_abs("-123456.123456", "123456.123456");
    }

        fn test_round_with_precision_assert(val: &str, precision: u8, scale: i16, expected: &str) {
            let mut decimal = val.parse::<Decimal>().unwrap();
            let overflowed = decimal.round_with_precision(precision, scale);
            assert!(!overflowed);
            let expected = expected.parse::<Decimal>().unwrap();
            assert_eq!(decimal, expected);
        }

        fn test_round_with_precision_assert_overflow(val: &str, precision: u8, scale: i16) {
            let mut decimal = val.parse::<Decimal>().unwrap();
            let overflowed = decimal.round_with_precision(precision, scale);
            assert!(overflowed);
        }

#[test]
fn test_round_with_precision() {

        test_round_with_precision_assert_overflow("123456", 5, 0);
        test_round_with_precision_assert_overflow("123456", 5, 1);
        test_round_with_precision_assert_overflow("123456", 6, 1);
        test_round_with_precision_assert_overflow("123.456", 6, 4);
        test_round_with_precision_assert_overflow("5e100", 5, -2);
        test_round_with_precision_assert_overflow("5e100", 20, -80);

        test_round_with_precision_assert("123456", 5, -1, "123460");
        test_round_with_precision_assert("123456", 5, -5, "100000");
        test_round_with_precision_assert("123456", 5, -6, "0");
        test_round_with_precision_assert("123456", 6, 0, "123456");
        test_round_with_precision_assert("123456", 6, -1, "123460");
        test_round_with_precision_assert("123.456", 6, 0, "123");
        test_round_with_precision_assert("123.456", 6, 1, "123.5");
        test_round_with_precision_assert("123.456", 6, 3, "123.456");
        test_round_with_precision_assert("123.456", 6, -1, "120");
        test_round_with_precision_assert("123.456", 6, -2, "100");
        test_round_with_precision_assert("123.456", 6, -3, "0");
        test_round_with_precision_assert("623.456", 6, -3, "1000");
        test_round_with_precision_assert("123.456", 6, -4, "0");
        test_round_with_precision_assert("123.456", 5, -4, "0");
        test_round_with_precision_assert("123.456", 5, -3, "0");
        test_round_with_precision_assert("123.456", 5, -2, "100");
        test_round_with_precision_assert("123456", 5, -5, "100000");
        test_round_with_precision_assert("123456", 5, -6, "0");
        test_round_with_precision_assert("123456", 5, -7, "0");
        test_round_with_precision_assert("5e100", 21, -80, "5e100");
        test_round_with_precision_assert("5E-130", 10, 5, "0");
        test_round_with_precision_assert("5E-47", 1, 10, "0");
        test_round_with_precision_assert("-1E-130", 38, 10, "0");
        test_round_with_precision_assert("0.000811111", 5, 3, "0.001");
    }

        fn test_sqrt_assert_sqrt(val: &str, expected: &str) {
            let num = val.parse::<Decimal>().unwrap();
            let expected = expected.parse::<Decimal>().unwrap();
            let result = num.sqrt().unwrap();
            assert_eq!(result, expected);
        }

#[test]
fn test_sqrt() {

        test_sqrt_assert_sqrt("0", "0");
        test_sqrt_assert_sqrt("0.00000", "0");
        test_sqrt_assert_sqrt("1", "1");
        test_sqrt_assert_sqrt("1.001", "1.0004998750624609648232582877001097531");
        test_sqrt_assert_sqrt("1.44", "1.2");
        test_sqrt_assert_sqrt("2", "1.4142135623730950488016887242096980786");
        test_sqrt_assert_sqrt("100", "10");
        test_sqrt_assert_sqrt("49", "7");
        test_sqrt_assert_sqrt("0.25", "0.5");
        test_sqrt_assert_sqrt("0.0152399025", "0.12345");
        test_sqrt_assert_sqrt("152399025", "12345");
        test_sqrt_assert_sqrt("0.00400", "0.063245553203367586639977870888654370675");
        test_sqrt_assert_sqrt("0.1", "0.31622776601683793319988935444327185337");
        test_sqrt_assert_sqrt("2", "1.4142135623730950488016887242096980786");
        test_sqrt_assert_sqrt("125348", "354.04519485512015631084871931761013143");
        test_sqrt_assert_sqrt(
            "18446744073709551616.1099511",
            "4294967296.0000000000127999926917254925",
        );
        test_sqrt_assert_sqrt(
            "3.1415926535897931159979634685441851615",
            "1.7724538509055159927515191031392484393",
        );
        test_sqrt_assert_sqrt(
            "0.000000000089793115997963468544185161590576171875",
            "0.0000094759229628550415175617837401442254225",
        );
        test_sqrt_assert_sqrt(
            "0.71777001097629639227453423431674136248",
            "0.84721308475276536670429805177990207040",
        );
        test_sqrt_assert_sqrt(
            "0.012345679012345679012345679012345679012",
            "0.11111111111111111111111111111111111111",
        );
        test_sqrt_assert_sqrt(
            "0.11088900000000000000000000000000000444",
            "0.33300000000000000000000000000000000667",
        );
        test_sqrt_assert_sqrt(
            "17014118346046923173168730371588410572",
            "4124817371235594858.7903221175243613899",
        );
        test_sqrt_assert_sqrt(
            "0.17014118346046923173168730371588410572",
            "0.41248173712355948587903221175243613899",
        );
        test_sqrt_assert_sqrt("1e100", "1e50");
        test_sqrt_assert_sqrt("1.01e100", "1.0049875621120890270219264912759576187e50");
        test_sqrt_assert_sqrt("1e-100", "1e-50");
        test_sqrt_assert_sqrt("1.01e-100", "1.0049875621120890270219264912759576187e-50");
        test_sqrt_assert_sqrt("1.0e-130", "1.0e-65");
    }

        fn test_simply_format_assert_fmt(input: &str, expected: &str) {
            let num = input.parse::<Decimal>().unwrap();
            let s = num.simply_format();
            assert_eq!(s.as_str(), expected);
        }

#[test]
fn test_simply_format() {

        test_simply_format_assert_fmt("0", "0");
        test_simply_format_assert_fmt("0.6796000", ".6796");
        test_simply_format_assert_fmt("0.6796", ".6796");
        test_simply_format_assert_fmt("-0.6796", "-.6796");
        test_simply_format_assert_fmt("123456789.123456789", "123456789.123456789");
        test_simply_format_assert_fmt("+123456789.123456789", "123456789.123456789");
        test_simply_format_assert_fmt("-123456789.123456789", "-123456789.123456789");
    }

fn fmt_internal_is(int_val: u128, scale: i16, negative: bool, append_sign: bool, precision: Option<usize>, expected: &str) {
    let dec = Decimal::from_parts(int_val, scale, negative).unwrap();
    let buf = dec.fmt_internal(append_sign, false, false, precision);
    assert_eq!(String::from_utf8(buf).unwrap(), expected);
}

#[test]
fn test_fmt_internal() {
    fmt_internal_is(128, 0, false, false, None, "128");
    fmt_internal_is(128, -2, true, true, None, "-12800");
    fmt_internal_is(128, 4, true, true, None, "-0.0128");
    fmt_internal_is(128, 2, true, false, None, "1.28");
    fmt_internal_is(1280, 4, true, true, None, "-0.1280");
    fmt_internal_is(12856, 4, true, false, None, "1.2856");
    fmt_internal_is(12856, 4, true, false, Some(2), "1.29");
    fmt_internal_is(12856, 4, true, false, Some(6), "1.285600");
    fmt_internal_is(1285600, 6, false, false, None, "1.2856");
}

fn display_is(num: u128, scale: i16, negative: bool, precision: Option<usize>, expected: &str) {
    let dec = Decimal::from_parts(num, scale, negative).unwrap();
    assert_eq!(dec.to_string_with_precision(precision), expected);
}

#[test]
fn test_display() {
    display_is(0, -1, false, None, &"0");
    display_is(1, 0, false, None, &"1");
    display_is(1, 1, false, None, &"0.1");
    display_is(1, -1, false, None, &"10");
    display_is(10, 0, false, None, &"10");
    display_is(10, 1, false, None, &"1");
    display_is(10, -1, false, None, &"100");
    display_is(128, 0, false, None, &"128");
    display_is(128, -2, true, None, &"-12800");
    display_is(128, 4, true, None, &"-0.0128");
    display_is(128, 2, true, None, &"-1.28");
    display_is(12800, 1, false, None, &"1280");
    display_is(12800, 2, false, None, &"128");
    display_is(12800, 3, false, None, &"12.8");
    display_is(12856, 4, true, None, &"-1.2856");
    display_is(12856, 4, true, Some(2), &"-1.29");
    display_is(12856, 4, true, Some(6), &"-1.285600");
    display_is(12856, 0, true, Some(6), &"-12856.000000");
    display_is(1285600, 6, false, None, &"1.2856");
    display_is(u64::MAX as u128, 0, false, None, &u64::MAX.to_string());
    display_is(101, -98, false, Some(10), &"10100000000000000000000000000000000000000000000000000000000000000000000000000000000000000000000000000.0000000000");
    display_is(101, 98, false, Some(10), &"0.0000000000");
}

fn encoding_round_trips(num: &str) {
    let num = num.parse::<Decimal>().unwrap();
    let buf = num.compact_encode();
    let decoded_num = Decimal::decode(&buf);
    assert_eq!(decoded_num, num);
}

#[test]
fn test_encoding() {
    encoding_round_trips("0");
    encoding_round_trips("255");
    encoding_round_trips("-255");
    encoding_round_trips("65535");
    encoding_round_trips("-65535");
    encoding_round_trips("4294967295");
    encoding_round_trips("-4294967295");
    encoding_round_trips("18446744073709551615");
    encoding_round_trips("-18446744073709551615");
    encoding_round_trips("99999999999999999999999999999999999999");
    encoding_round_trips("-99999999999999999999999999999999999999");
    encoding_round_trips("184467440.73709551615");
    encoding_round_trips("-184467440.73709551615");
}

        fn test_trunc_assert_trunc(val: &str, scale: i16, expected: &str) {
            let decimal = val.parse::<Decimal>().unwrap().trunc(scale);
            let expected = expected.parse::<Decimal>().unwrap();
            assert_eq!(decimal, expected);
        }

#[test]
fn test_trunc() {

        test_trunc_assert_trunc("0", -1, "0");
        test_trunc_assert_trunc("123456", 0, "123456");
        test_trunc_assert_trunc("123456.123456", 6, "123456.123456");
        test_trunc_assert_trunc("123456.123456", 5, "123456.12345");
        test_trunc_assert_trunc("123456.123456", 4, "123456.1234");
        test_trunc_assert_trunc("123456.123456", 3, "123456.123");
        test_trunc_assert_trunc("123456.123456", 2, "123456.12");
        test_trunc_assert_trunc("123456.123456", 1, "123456.1");
        test_trunc_assert_trunc("123456.123456", 0, "123456");
        test_trunc_assert_trunc("123456.123456", -1, "123450");
        test_trunc_assert_trunc("123456.123456", -2, "123400");
        test_trunc_assert_trunc("123456.123456", -3, "123000");
        test_trunc_assert_trunc("123456.123456", -4, "120000");
        test_trunc_assert_trunc("123456.123456", -5, "100000");
        test_trunc_assert_trunc("9999.9", 1, "9999.9");
        test_trunc_assert_trunc("9999.9", -2, "9900");
        test_trunc_assert_trunc("9999.9", -4, "0");
        test_trunc_assert_trunc("1e125", 0, "1e125");
        test_trunc_assert_trunc("1e125", -125, "1e125");
        test_trunc_assert_trunc("1e-130", 0, "0");
        test_trunc_assert_trunc("1.7976931348623279769313486232797693134E-130", 131, "1.7E-130");
        test_trunc_assert_trunc(
            "1.7976931348623279769313486232797693134E-130",
            166,
            "1.797693134862327976931348623279769313E-130",
        );
        test_trunc_assert_trunc(
            "1.7976931348623279769313486232797693134E-130",
            167,
            "1.7976931348623279769313486232797693134E-130",
        );
        test_trunc_assert_trunc(
            "1.7976931348623279769313486232797693134E-130",
            168,
            "1.7976931348623279769313486232797693134E-130",
        );
    }

        fn test_round_assert_round(val: &str, scale: i16, expected: &str) {
            let decimal = val.parse::<Decimal>().unwrap().round(scale);
            let expected = expected.parse::<Decimal>().unwrap();
            assert_eq!(decimal, expected);
        }

#[test]
fn test_round() {

        test_round_assert_round("0", -1, "0");
        test_round_assert_round("123456", 0, "123456");
        test_round_assert_round("123456.123456", 6, "123456.123456");
        test_round_assert_round("123456.123456", 5, "123456.12346");
        test_round_assert_round("123456.123456", 4, "123456.1235");
        test_round_assert_round("123456.123456", 3, "123456.123");
        test_round_assert_round("123456.123456", 2, "123456.12");
        test_round_assert_round("123456.123456", 1, "123456.1");
        test_round_assert_round("123456.123456", 0, "123456");
        test_round_assert_round("123456.123456", -1, "123460");
        test_round_assert_round("123456.123456", -2, "123500");
        test_round_assert_round("123456.123456", -3, "123000");
        test_round_assert_round("123456.123456", -4, "120000");
        test_round_assert_round("123456.123456", -5, "100000");
        test_round_assert_round("9999.9", 1, "9999.9");
        test_round_assert_round("9999.9", -2, "10000");
        test_round_assert_round("9999.9", -4, "10000");
        test_round_assert_round("1.7976931348623279769313486232797693134E-130", 131, "1.8E-130");
        test_round_assert_round(
            "1.7976931348623279769313486232797693134E-130",
            166,
            "1.797693134862327976931348623279769313E-130",
        );
        test_round_assert_round(
            "1.7976931348623279769313486232797693134E-130",
            167,
            "1.7976931348623279769313486232797693134E-130",
        );
        test_round_assert_round(
            "1.7976931348623279769313486232797693134E-130",
            168,
            "1.7976931348623279769313486232797693134E-130",
        );
    }

        fn test_normalize_to_assert_normalize(val: (u128, i16), scale: i16, expected: (u128, i16)) {
            let left = Decimal::from_parts(val.0, val.1, false).unwrap();
            let right = Decimal::from_parts(expected.0, expected.1, false).unwrap();
            assert_eq!(left, right);
            let normal = left.normalize_to_scale(scale);
            let (m, e, _) = normal.into_parts();
            assert_eq!((m, e), expected);
        }

#[test]
fn test_normalize_to() {

        test_normalize_to_assert_normalize((12300, 130), 2, (123, 130 - 2));
        test_normalize_to_assert_normalize((12300, 2), 2, (12300, 2));
        test_normalize_to_assert_normalize((12300, 2), 3, (123000, 3));
        test_normalize_to_assert_normalize((12300, 2), 0, (123, 0));
        test_normalize_to_assert_normalize((12300, 2), -1, (123, 0));
        test_normalize_to_assert_normalize((123000, 2), -1, (123, -1));
        test_normalize_to_assert_normalize(
            (9_9999_9999_9999_9999_9999_9999_9999_9999_9999_u128, -2),
            2,
            (99_9999_9999_9999_9999_9999_9999_9999_9999_9990_u128, -1),
        );
        test_normalize_to_assert_normalize((12300, (-126) + 1), -100, (123000000000000000000000000000, -100));
    }

        fn test_normalize_assert_normalize(val: (u128, i16), expected: (u128, i16)) {
            let left = Decimal::from_parts(val.0, val.1, false).unwrap();
            let right = Decimal::from_parts(expected.0, expected.1, false).unwrap();
            assert_eq!(left, right);
            let normal = left.normalize();
            let (m, e, _) = normal.into_parts();
            assert_eq!((m, e), expected);
        }

#[test]
fn test_normalize() {

        test_normalize_assert_normalize((12300, 130), (123, 130 - 2));
        test_normalize_assert_normalize((12300, 2), (123, 0));
        test_normalize_assert_normalize((1230, 0), (1230, 0));
        test_normalize_assert_normalize((12300, -2), (1230000, 0));
        test_normalize_assert_normalize(
            (9_9999_9999_9999_9999_9999_9999_9999_9999_9999_u128, -2),
            (99_9999_9999_9999_9999_9999_9999_9999_9999_9990_u128, -1),
        );
        test_normalize_assert_normalize((12300, (-126) + 1), (12300000000000000000000000000000000000, -92));
    }

        fn test_ceil_floor_assert_ceil_floor(val: &str, expected_ceil: &str, expected_floor: &str) {
            let decimal_ceil = val.parse::<Decimal>().unwrap().ceil();
            let decimal_floor = val.parse::<Decimal>().unwrap().floor();
            let expected_ceil = expected_ceil.parse::<Decimal>().unwrap();
            let expected_floor = expected_floor.parse::<Decimal>().unwrap();
            assert_eq!(decimal_ceil, expected_ceil);
            assert_eq!(decimal_floor, expected_floor);
        }

#[test]
fn test_ceil_floor() {

        test_ceil_floor_assert_ceil_floor("0", "0", "0");
        test_ceil_floor_assert_ceil_floor("123456", "123456", "123456");
        test_ceil_floor_assert_ceil_floor("12345600", "12345600", "12345600");
        test_ceil_floor_assert_ceil_floor("-12345600", "-12345600", "-12345600");
        test_ceil_floor_assert_ceil_floor("123456.123456", "123457", "123456");
        test_ceil_floor_assert_ceil_floor("-123456.123456", "-123456", "-123457");
        test_ceil_floor_assert_ceil_floor("0.00123456", "1", "0");
        test_ceil_floor_assert_ceil_floor("-0.00123456", "0", "-1");
        test_ceil_floor_assert_ceil_floor("1e100", "1e100", "1e100");
        test_ceil_floor_assert_ceil_floor("1e-100", "1", "0");
        test_ceil_floor_assert_ceil_floor("-1e100", "-1e100", "-1e100");
        test_ceil_floor_assert_ceil_floor("-1e-100", "0", "-1");
        test_ceil_floor_assert_ceil_floor("100e-2", "1", "1");
        test_ceil_floor_assert_ceil_floor("-100e-2", "-1", "-1");
    }

#[test]
fn test_hash() {
    let d1 = Decimal::from_parts(12345, 3, false).unwrap();
    let d2 = Decimal::from_parts(123450, 4, false).unwrap();

    let mut hash1 = DefaultHasher::new();
    let mut hash2 = DefaultHasher::new();

    d1.hash(&mut hash1);
    d2.hash(&mut hash2);

    assert_eq!(hash1.finish(), hash2.finish());
}

#[test]
fn round_with_precision_holds_scale_in_range() {
    let mut d = Decimal::from_parts(12, -126, false).unwrap();
    assert!(!d.round_with_precision(38, -127));
    assert_eq!(d.into_parts(), (10, -126, false));
    let mut e = Decimal::from_parts(5, 160, false).unwrap();
    assert!(!e.round_with_precision(38, 170));
    assert_eq!(e.into_parts(), (50000000, 167, false));
}

#[test]
fn try_decode_refuses_what_holds_no_decimal() {
    let d: Decimal = "-184467440.73709551615".parse().unwrap();
    assert_eq!(Decimal::try_decode(&d.encode()).unwrap(), d);
    assert_eq!(Decimal::try_decode(&[]).unwrap_err(), DecimalConvertError::Invalid);
    assert_eq!(Decimal::try_decode(&[2, 200, 1]).unwrap_err(), DecimalConvertError::Overflow);
    assert_eq!(Decimal::try_decode(&[2, 3, 0xFF, 0xFF, 0xFF, 0xFF, 0xFF, 0xFF, 0xFF, 0xFF, 0xFF, 0xFF, 0xFF, 0xFF, 0xFF, 0xFF, 0xFF, 0xFF]).unwrap_err(), DecimalConvertError::Overflow);
}
