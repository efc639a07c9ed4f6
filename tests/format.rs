use decimal_rs::Decimal;

        fn test_format_with_sci_assert_fmt(input: &str, target_len: u16, expected: &str) {
            let num = input.parse::<Decimal>().unwrap();
            let s = num.format_with_sci(target_len).unwrap();
            assert_eq!(s.as_str(), expected);
        }

        fn test_format_with_sci_assert_error(input: &str, target_len: u16) {
            let num = input.parse::<Decimal>().unwrap();
            assert!(num.format_with_sci(target_len).is_err());
        }

        fn test_format_with_sci_assert_fmt2(num: Decimal, target_len: u16, expected: &str) {
            let s = num.format_with_sci(target_len).unwrap();
            assert_eq!(s.as_str(), expected);
        }

#[test]
fn test_format_with_sci() {

        // Cannot truncates when target_len is smaller than scientific notation length
        test_format_with_sci_assert_fmt("0", 1, "0");
        test_format_with_sci_assert_fmt("0", 5, "0");
        test_format_with_sci_assert_fmt("6", 1, "6");
        test_format_with_sci_assert_fmt("6", 5, "6");
        test_format_with_sci_assert_error("10", 1);
        test_format_with_sci_assert_fmt("10", 2, "10");
        test_format_with_sci_assert_fmt("10", 5, "10");
        test_format_with_sci_assert_error("100", 2);
        test_format_with_sci_assert_fmt("100", 3, "100");
        test_format_with_sci_assert_fmt("100", 5, "100");
        test_format_with_sci_assert_fmt("-236.23", 20, "-236.23");
        test_format_with_sci_assert_fmt("-236.23", 7, "-236.23");

        // Keeps zero ending
        test_format_with_sci_assert_fmt("1000000000", 10, "1000000000");
        test_format_with_sci_assert_fmt("-1000000000", 11, "-1000000000");
        test_format_with_sci_assert_fmt("1000000000", 9, "1.000E+09");
        test_format_with_sci_assert_fmt("-1000000000", 10, "-1.000E+09");
        test_format_with_sci_assert_fmt("1000000000", 7, "1.0E+09");
        test_format_with_sci_assert_fmt("-1000000000", 8, "-1.0E+09");
        test_format_with_sci_assert_error("1000000000", 6);
        test_format_with_sci_assert_error("-1000000000", 7);

        // Rounds when truncate
        test_format_with_sci_assert_fmt("9999999999", 9, "1.000E+10");
        test_format_with_sci_assert_fmt("9999999999", 7, "1.0E+10");
        test_format_with_sci_assert_fmt("1899999999", 9, "1.900E+09");
        test_format_with_sci_assert_fmt("1899999999", 7, "1.9E+09");
        test_format_with_sci_assert_fmt("1989999999", 9, "1.990E+09");
        test_format_with_sci_assert_fmt("1989999999", 7, "2.0E+09");
        test_format_with_sci_assert_fmt("1999999999", 9, "2.000E+09");
        test_format_with_sci_assert_fmt("1999999999", 7, "2.0E+09");
        test_format_with_sci_assert_fmt("1666666666", 9, "1.667E+09");
        test_format_with_sci_assert_fmt("1666666666", 7, "1.7E+09");
        test_format_with_sci_assert_error("1666666666", 6);
        test_format_with_sci_assert_fmt("9999999999.999999999", 25, "9999999999.999999999");
        test_format_with_sci_assert_fmt("9999999999.999999999", 9, "1.000E+10");
        test_format_with_sci_assert_fmt("-9999999999.999999999", 9, "-1.00E+10");
        test_format_with_sci_assert_fmt("666666.666666", 10, "666666.667");
        test_format_with_sci_assert_fmt(".0000123456789", 10, ".000012346");
        test_format_with_sci_assert_fmt(".00000123456789", 10, "1.2346E-06");
        test_format_with_sci_assert_fmt(".00000999999999", 10, "1.0000E-05");
        test_format_with_sci_assert_fmt("-0.00000999999999", 10, "-1.000E-05");
        test_format_with_sci_assert_fmt("-0.00000999999999", 20, "-.00000999999999");
        test_format_with_sci_assert_fmt("-0.0000000000123456789", 14, "-1.2345679E-11");
        test_format_with_sci_assert_fmt(".0000000000123456789", 14, "1.23456789E-11");
        test_format_with_sci_assert_fmt("-0.0000000000123456789", 20, "-1.2345678900000E-11");

        // Ignores zero integer
        test_format_with_sci_assert_fmt("-0.0000000000123456789", 21, "-.0000000000123456789");
        test_format_with_sci_assert_fmt("0.135E-100", 8, "1.4E-101");
        test_format_with_sci_assert_fmt("0.135E-100", 15, "1.35000000E-101");
        test_format_with_sci_assert_fmt("0.135E-100", 25, "1.350000000000000000E-101");
        test_format_with_sci_assert_fmt("0.135E-100", 30, "1.35000000000000000000000E-101");
        test_format_with_sci_assert_fmt("-0.135E+100", 25, "-1.350000000000000000E+99");
        test_format_with_sci_assert_fmt("-0.135E+100", 30, "-1.35000000000000000000000E+99");
        test_format_with_sci_assert_fmt(
            "-0.135E-100",
            106,
            "-.0000000000000000000000000000000000000000000000000000000000000000000000000000000000000000000000000000135",
        );
        test_format_with_sci_assert_fmt(
            "0.1E-126",
            127,
            "1.000000000000000000000000000000000000000000000000000000000000000000000000000000000000000000000000000000000000000000000000E-127",
        );

        // Ignores ending '.' after integer
        test_format_with_sci_assert_fmt("666666.666666", 7, "666667");
        test_format_with_sci_assert_fmt("666666.666666", 6, "666667");
        test_format_with_sci_assert_error("666666.666666", 5);

        // Ignores zeros after decimal's int_val in fraction

        let num = Decimal::from_parts(330, 3, false).unwrap();
        test_format_with_sci_assert_fmt2(num, 10, ".33");
        test_format_with_sci_assert_fmt2(num, 2, ".3");
    }

        fn test_format_with_sci_forced_assert_sci(input: &str, expect_scale: i16, with_zero_before_dot: bool, expect: &str) {
            let num = input.parse::<Decimal>().unwrap();
            let s = num.format_with_sci_forced(expect_scale, with_zero_before_dot).unwrap();
            assert_eq!(s.as_str(), expect);
        }

#[test]
fn test_format_with_sci_forced() {

        test_format_with_sci_forced_assert_sci("0", 0, false, "0E+00");
        test_format_with_sci_forced_assert_sci("0", 1, false, " .0E+00");
        test_format_with_sci_forced_assert_sci("0", 3, false, " .000E+00");
        test_format_with_sci_forced_assert_sci(
            "0",
            56,
            false,
            " .00000000000000000000000000000000000000000000000000000000E+00",
        );
        test_format_with_sci_forced_assert_sci("0", 0, true, "0E+00");
        test_format_with_sci_forced_assert_sci("0", 1, true, "0.0E+00");
        test_format_with_sci_forced_assert_sci("0", 3, true, "0.000E+00");
        test_format_with_sci_forced_assert_sci(
            "0",
            56,
            true,
            "0.00000000000000000000000000000000000000000000000000000000E+00",
        );
        test_format_with_sci_forced_assert_sci("0.6", 0, false, "6E-01");
        test_format_with_sci_forced_assert_sci("1.6", 0, false, "2E+00");
        test_format_with_sci_forced_assert_sci("1.2", 0, false, "1E+00");
        test_format_with_sci_forced_assert_sci(
            "3.234234E120",
            56,
            false,
            "3.23423400000000000000000000000000000000000000000000000000E+120",
        );
        test_format_with_sci_forced_assert_sci(
            "3.234234E-120",
            56,
            false,
            "3.23423400000000000000000000000000000000000000000000000000E-120",
        );
        test_format_with_sci_forced_assert_sci("3.234234E120", 3, false, "3.234E+120");
        test_format_with_sci_forced_assert_sci("3.234234E-120", 3, false, "3.234E-120");
        test_format_with_sci_forced_assert_sci(
            "0.345e100",
            56,
            false,
            "3.45000000000000000000000000000000000000000000000000000000E+99",
        );
        test_format_with_sci_forced_assert_sci(
            "0.345e-100",
            56,
            false,
            "3.45000000000000000000000000000000000000000000000000000000E-101",
        );
        test_format_with_sci_forced_assert_sci("3e2", 4, false, "3.0000E+02");
        test_format_with_sci_forced_assert_sci("300", 4, false, "3.0000E+02");
        test_format_with_sci_forced_assert_sci("0.03", 4, false, "3.0000E-02");
        test_format_with_sci_forced_assert_sci("3.36e60", 0, false, "3E+60");
        test_format_with_sci_forced_assert_sci("3.36e-60", 0, false, "3E-60");
        test_format_with_sci_forced_assert_sci("-3.36e60", 0, false, "-3E+60");
        test_format_with_sci_forced_assert_sci("-3.36e-60", 0, false, "-3E-60");
        test_format_with_sci_forced_assert_sci("3.36e60", 1, false, "3.4E+60");
        test_format_with_sci_forced_assert_sci("3.36e-60", 1, false, "3.4E-60");
        test_format_with_sci_forced_assert_sci("-3.36e60", 1, false, "-3.4E+60");
        test_format_with_sci_forced_assert_sci("-3.36e-60", 1, false, "-3.4E-60");
    }

        fn test_format_to_hex_assert_fmt_hex(input: &str, is_capital: bool, expect: &str) {
            let num = input.parse::<Decimal>().unwrap();
            let s = num.format_to_hex(is_capital).unwrap();
            assert_eq!(s.as_str(), expect);
        }

#[test]
fn test_format_to_hex() {

        test_format_to_hex_assert_fmt_hex("3", true, "3");
        test_format_to_hex_assert_fmt_hex("15", true, "F");
        test_format_to_hex_assert_fmt_hex("15", false, "f");
        test_format_to_hex_assert_fmt_hex(
            "7e75",
            true,
            "f79dc0e8c518f31eb934b4522ad36a1d39f275c35e858000000000000000000"
                .to_uppercase()
                .as_str(),
        );
        test_format_to_hex_assert_fmt_hex(
            "7e75",
            false,
            "f79dc0e8c518f31eb934b4522ad36a1d39f275c35e858000000000000000000",
        );
        test_format_to_hex_assert_fmt_hex(
            "6e70",
            true,
            "8b18610932ab6b2906ea3dfeaa8da073a862d7e0d800000000000000000"
                .to_uppercase()
                .as_str(),
        );
        test_format_to_hex_assert_fmt_hex(
            "6e70",
            false,
            "8b18610932ab6b2906ea3dfeaa8da073a862d7e0d800000000000000000",
        );
        test_format_to_hex_assert_fmt_hex("999", true, "3E7");
        test_format_to_hex_assert_fmt_hex("999", false, "3e7");
        test_format_to_hex_assert_fmt_hex(
            "9.93879279687e53",
            true,
            "a6067cc8b3051f61f39c31e697c47c18e3c0000000000".to_uppercase().as_str(),
        );
        test_format_to_hex_assert_fmt_hex(
            "9.93879279687e53",
            false,
            "a6067cc8b3051f61f39c31e697c47c18e3c0000000000",
        );
        test_format_to_hex_assert_fmt_hex(
            "12345678901234567890123456789012345678e30",
            true,
            "753aaed77fe1aa5508b3e1db763b1a087e44a76fa433d81f80000000"
                .to_uppercase()
                .as_str(),
        );
        test_format_to_hex_assert_fmt_hex(
            "12345678901234567890123456789012345678e30",
            false,
            "753aaed77fe1aa5508b3e1db763b1a087e44a76fa433d81f80000000",
        );
        test_format_to_hex_assert_fmt_hex("253.658", true, "FE");
        test_format_to_hex_assert_fmt_hex("253.658", false, "fe");
        test_format_to_hex_assert_fmt_hex("0", true, "0");
        test_format_to_hex_assert_fmt_hex("0", false, "0");
        test_format_to_hex_assert_fmt_hex("0.2", true, "0");
        test_format_to_hex_assert_fmt_hex("0.2", false, "0");
        test_format_to_hex_assert_fmt_hex("0.7", true, "1");
        test_format_to_hex_assert_fmt_hex("0.7", false, "1");
        // Max value
        test_format_to_hex_assert_fmt_hex(
            "72370055773322622139731865630429942408e38",
            true,
            "fffffffffffffffffffffffffffffffe9e6c3ef3908c56c58cab20000000000"
                .to_uppercase()
                .as_str(),
        );
        test_format_to_hex_assert_fmt_hex(
            "72370055773322622139731865630429942408e38",
            false,
            "fffffffffffffffffffffffffffffffe9e6c3ef3908c56c58cab20000000000",
        );
    }

        fn test_format_to_json_assert_fmt_json(input: &str, expect: &str) {
            let num = input.parse::<Decimal>().unwrap();
            let s = num.format_to_json().unwrap();
            assert_eq!(s.as_str(), expect);
        }

#[test]
fn test_format_to_json() {

        test_format_to_json_assert_fmt_json("0", "0");
        test_format_to_json_assert_fmt_json("123", "123");
        test_format_to_json_assert_fmt_json("123.123", "123.123");
        test_format_to_json_assert_fmt_json("-123", "-123");
        test_format_to_json_assert_fmt_json("-123.123", "-123.123");
        test_format_to_json_assert_fmt_json("123e37", "1230000000000000000000000000000000000000");
        test_format_to_json_assert_fmt_json("123e38", "1.23E+40");
        test_format_to_json_assert_fmt_json("123e39", "1.23E+41");
        test_format_to_json_assert_fmt_json("12300e35", "1230000000000000000000000000000000000000");
        test_format_to_json_assert_fmt_json("12300e36", "1.23E+40");
        test_format_to_json_assert_fmt_json("12300e37", "1.23E+41");
        test_format_to_json_assert_fmt_json("-123e37", "-1230000000000000000000000000000000000000");
        test_format_to_json_assert_fmt_json("-123e38", "-1.23E+40");
        test_format_to_json_assert_fmt_json("-123e39", "-1.23E+41");
        test_format_to_json_assert_fmt_json("-12300e35", "-1230000000000000000000000000000000000000");
        test_format_to_json_assert_fmt_json("-12300e36", "-1.23E+40");
        test_format_to_json_assert_fmt_json("-12300e37", "-1.23E+41");

        test_format_to_json_assert_fmt_json("123e-42", "1.23E-40");
        test_format_to_json_assert_fmt_json("123e-41", "1.23E-39");
        test_format_to_json_assert_fmt_json("123e-40", "0.0000000000000000000000000000000000000123");
        test_format_to_json_assert_fmt_json("12300e-44", "1.23E-40");
        test_format_to_json_assert_fmt_json("12300e-43", "1.23E-39");
        test_format_to_json_assert_fmt_json("12300e-42", "0.0000000000000000000000000000000000000123");
        test_format_to_json_assert_fmt_json("-123e-42", "-1.23E-40");
        test_format_to_json_assert_fmt_json("-123e-41", "-1.23E-39");
        test_format_to_json_assert_fmt_json("-123e-40", "-0.0000000000000000000000000000000000000123");
        test_format_to_json_assert_fmt_json("-12300e-44", "-1.23E-40");
        test_format_to_json_assert_fmt_json("-12300e-43", "-1.23E-39");
        test_format_to_json_assert_fmt_json("-12300e-42", "-0.0000000000000000000000000000000000000123");

        test_format_to_json_assert_fmt_json("1234.1234e36", "1234123400000000000000000000000000000000");
        test_format_to_json_assert_fmt_json("1234.1234e37", "1.2341234E+40");
        test_format_to_json_assert_fmt_json("1234.1234e-36", "0.0000000000000000000000000000000012341234");
        test_format_to_json_assert_fmt_json("1234.1234e-37", "1.2341234E-34");

        test_format_to_json_assert_fmt_json(
            "12345678901234567890123456789012345678e2",
            "1234567890123456789012345678901234567800",
        );
        test_format_to_json_assert_fmt_json(
            "12345678901234567890123456789012345678e3",
            "1.2345678901234567890123456789012345678E+40",
        );
        test_format_to_json_assert_fmt_json(
            "12345678901234567890123456789012345678e-40",
            "0.0012345678901234567890123456789012345678",
        );
        test_format_to_json_assert_fmt_json(
            "12345678901234567890123456789012345678e-41",
            "1.2345678901234567890123456789012345678E-4",
        );

        test_format_to_json_assert_fmt_json(
            "1234567890123456789012345678901234567800e0",
            "1234567890123456789012345678901234567800",
        );
        test_format_to_json_assert_fmt_json(
            "1234567890123456789012345678901234567800e1",
            "1.2345678901234567890123456789012345678E+40",
        );
        test_format_to_json_assert_fmt_json(
            "1234567890123456789012345678901234567800e-42",
            "0.0012345678901234567890123456789012345678",
        );
        test_format_to_json_assert_fmt_json(
            "1234567890123456789012345678901234567800e-43",
            "1.2345678901234567890123456789012345678E-4",
        );

        test_format_to_json_assert_fmt_json(
            "12345678901234567.890123456789012345678e19",
            "123456789012345678901234567890123456.78",
        );
        test_format_to_json_assert_fmt_json(
            "12345678901234567.890123456789012345678e21",
            "12345678901234567890123456789012345678",
        );
        test_format_to_json_assert_fmt_json(
            "12345678901234567.890123456789012345678e23",
            "1234567890123456789012345678901234567800",
        );
        test_format_to_json_assert_fmt_json(
            "12345678901234567.890123456789012345678e24",
            "1.2345678901234567890123456789012345678E+40",
        );
        test_format_to_json_assert_fmt_json(
            "12345678901234567.890123456789012345678e-15",
            "12.345678901234567890123456789012345678",
        );
        test_format_to_json_assert_fmt_json(
            "12345678901234567.890123456789012345678e-17",
            "0.12345678901234567890123456789012345678",
        );
        test_format_to_json_assert_fmt_json(
            "12345678901234567.890123456789012345678e-19",
            "0.0012345678901234567890123456789012345678",
        );
        test_format_to_json_assert_fmt_json(
            "12345678901234567.890123456789012345678e-21",
            "1.2345678901234567890123456789012345678E-5",
        );

        test_format_to_json_assert_fmt_json(
            "0.00000000012345678901234567890123456789012345678e-1",
            "1.2345678901234567890123456789012345678E-11",
        );
        test_format_to_json_assert_fmt_json(
            "0.00000000012345678901234567890123456789012345678e0",
            "1.2345678901234567890123456789012345678E-10",
        );
        test_format_to_json_assert_fmt_json(
            "0.00000000012345678901234567890123456789012345678e6",
            "1.2345678901234567890123456789012345678E-4",
        );
        test_format_to_json_assert_fmt_json(
            "0.00000000012345678901234567890123456789012345678e7",
            "0.0012345678901234567890123456789012345678",
        );
        test_format_to_json_assert_fmt_json(
            "0.00000000012345678901234567890123456789012345678e47",
            "12345678901234567890123456789012345678",
        );
        test_format_to_json_assert_fmt_json(
            "0.00000000012345678901234567890123456789012345678e49",
            "1234567890123456789012345678901234567800",
        );
        test_format_to_json_assert_fmt_json(
            "0.00000000012345678901234567890123456789012345678e50",
            "1.2345678901234567890123456789012345678E+40",
        );
    }
