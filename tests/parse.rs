use decimal_rs::{Decimal, DecimalParseError};

fn parse_empty(s: &str) {
    assert_eq!(s.parse::<Decimal>().unwrap_err(), DecimalParseError::Empty);
}

fn parse_invalid(s: &str) {
    assert_eq!(s.parse::<Decimal>().unwrap_err(), DecimalParseError::Invalid);
}

fn parse_overflow(s: &str) {
    assert_eq!(s.parse::<Decimal>().unwrap_err(), DecimalParseError::Overflow);
}

fn parse_underflow(s: &str) {
    assert_eq!(s.parse::<Decimal>().unwrap_err(), DecimalParseError::Underflow);
}

#[test]
fn test_parse_error() {
    parse_empty("");
    parse_empty("   ");
    parse_invalid("-");
    parse_invalid("   -   ");
    parse_invalid("-.");
    parse_invalid("- 1");
    parse_invalid("-NaN");
    parse_invalid("NaN.");
    parse_invalid("NaN1");
    parse_invalid("   NaN   .   ");
    parse_invalid("   NaN   1   ");
    parse_invalid(".");
    parse_invalid("   .   ");
    parse_invalid("e");
    parse_invalid("   e   ");
    parse_invalid("-e");
    parse_invalid("-1e");
    parse_invalid("1e1.1");
    parse_invalid("-1 e1");
    parse_invalid("   x   ");
    parse_overflow("1e1000");
    parse_overflow("1e100000");
    parse_overflow("1e127");
    parse_underflow("1e-131");
    parse_underflow("1e-1000");
    parse_underflow("1e-100000");
}

#[test]
fn parse_gives_parts() {
    let d: Decimal = "-0000001.23456000E-3".parse().unwrap();
    assert_eq!(d.into_parts(), (123456, 8, true));
    let d: Decimal = "999999999999999999999999999999999999999".parse().unwrap();
    assert_eq!(d.into_parts(), (10000000000000000000000000000000000000, -2, false));
    let d: Decimal = "  -0  ".parse().unwrap();
    assert_eq!(d.into_parts(), (0, 0, false));
}

fn assert_parse(s: &str, expected: &str) {
    let decimal = s.parse::<Decimal>().unwrap();
    assert_eq!(decimal.to_string(), expected);
}

#[test]
fn test_parse_valid() {
        // Integer
        assert_parse("0", "0");
        assert_parse("-0", "0");
        assert_parse("   -0   ", "0");
        assert_parse("00000.", "0");
        assert_parse("-00000.", "0");
        assert_parse("128", "128");
        assert_parse("-128", "-128");
        assert_parse("65536", "65536");
        assert_parse("-65536", "-65536");
        assert_parse("4294967296", "4294967296");
        assert_parse("-4294967296", "-4294967296");
        assert_parse("18446744073709551616", "18446744073709551616");
        assert_parse("-18446744073709551616", "-18446744073709551616");
        assert_parse(
            "99999999999999999999999999999999999999",
            "99999999999999999999999999999999999999",
        );
        assert_parse(
            "0099999999999999999999999999999999999999",
            "99999999999999999999999999999999999999",
        );
        assert_parse(
            "-99999999999999999999999999999999999999",
            "-99999999999999999999999999999999999999",
        );
        assert_parse("000000000123", "123");
        assert_parse("-000000000123", "-123");
        assert_parse(
            "170141183460469231713240559642175554110",
            "170141183460469231713240559642175554110",
        );
        assert_parse(
            "999999999999999999999999999999999999990000000000",
            "999999999999999999999999999999999999990000000000",
        );

        // Floating-point number
        assert_parse("0.0", "0");
        assert_parse("-0.0", "0");
        assert_parse("   -0.0   ", "0");
        assert_parse(".0", "0");
        assert_parse(".00000", "0");
        assert_parse("-.0", "0");
        assert_parse("-.00000", "0");
        assert_parse("128.128", "128.128");
        assert_parse("-128.128", "-128.128");
        assert_parse("65536.65536", "65536.65536");
        assert_parse("-65536.65536", "-65536.65536");
        assert_parse("4294967296.4294967296", "4294967296.4294967296");
        assert_parse("-4294967296.4294967296", "-4294967296.4294967296");
        assert_parse(
            "9999999999999999999.9999999999999999999",
            "9999999999999999999.9999999999999999999",
        );
        assert_parse(
            "-9999999999999999999.9999999999999999999",
            "-9999999999999999999.9999999999999999999",
        );
        assert_parse("000000000123.000000000123", "123.000000000123");
        assert_parse("-000000000123.000000000123", "-123.000000000123");
        assert_parse(
            "00.000000000000000000000000000000000000123",
            "0.000000000000000000000000000000000000123",
        );
        assert_parse("00.000000000000000000000000000000000000123e-87", "0.000000000000000000000000000000000000000000000000000000000000000000000000000000000000000000000000000000000000000000000000000123");
        assert_parse("99999999999999999999999999999999999999500000000000000000000000000000000000000000000000000000000000000000000000000000000000000", "100000000000000000000000000000000000000000000000000000000000000000000000000000000000000000000000000000000000000000000000000000");

        // Scientific notation
        assert_parse("0e0", "0");
        assert_parse("-0E-0", "0");
        assert_parse("0000000000E0000000000", "0");
        assert_parse("-0000000000E-0000000000", "0");
        assert_parse("00000000001e0000000000", "1");
        assert_parse("-00000000001e-0000000000", "-1");
        assert_parse("00000000001e00000000001", "10");
        assert_parse("-00000000001e-00000000001", "-0.1");
        assert_parse("1e10", "10000000000");
        assert_parse("-1e-10", "-0.0000000001");
        assert_parse("0000001.23456000e3", "1234.56");
        assert_parse("-0000001.23456000E-3", "-0.00123456");
    }

#[test]
fn test_parse_boundary() {
        assert_parse("100E-131", "0.00000000000000000000000000000000000000000000000000000000000000000000000000000000000000000000000000000000000000000000000000000000100");
        assert_parse("0.000012345E130", "123450000000000000000000000000000000000000000000000000000000000000000000000000000000000000000000000000000000000000000000000000");
        assert_parse("4.94065645841247E-126", "0.00000000000000000000000000000000000000000000000000000000000000000000000000000000000000000000000000000000000000000000000000000494065645841247");
        assert_parse("1234.94065645841247E-126", "0.00000000000000000000000000000000000000000000000000000000000000000000000000000000000000000000000000000000000000000000000000123494065645841247");
        assert_parse("12345678987654321999999E-132", "0.000000000000000000000000000000000000000000000000000000000000000000000000000000000000000000000000000000000000012345678987654321999999");
        assert_parse("10000000000000000000000000000000000000e88", "100000000000000000000000000000000000000000000000000000000000000000000000000000000000000000000000000000000000000000000000000000");
        assert_parse("0.999999999999999999999999999999999999995e-130", "0.00000000000000000000000000000000000000000000000000000000000000000000000000000000000000000000000000000000000000000000000000000000010000000000000000000000000000000000000");
        parse_underflow("0.999999999999999999999999999999999999995e-131");
        parse_overflow("999999999999999999999999999999999999995000000000000000000000000000000000000000000000000000000000000000000000000000000000000000");
    }

#[test]
fn test_parse_over_precision_but_valid() {
        // integer only
        assert_parse(
            "999999999999999999999999999999999999999",
            "1000000000000000000000000000000000000000",
        );
        assert_parse(
            "900719925474099290071992547409929007112123123123123",
            "900719925474099290071992547409929007110000000000000",
        );

        // fractional only
        assert_parse(
            "0.123123123123123135555555555555555555555555555555",
            "0.12312312312312313555555555555555555556",
        );
        assert_parse(
            "0.0000000123123123123123135555555555555555555555555555555",
            "0.000000012312312312312313555555555555555555556",
        );
        assert_parse(
            "0.0000000123123123123123135555555555555515555555555555555",
            "0.000000012312312312312313555555555555551555556",
        );
        assert_parse(
            "0.0000000123123123123123135555555555555565555551555555555",
            "0.000000012312312312312313555555555555556555555",
        );

        // integer over precision
        assert_parse(
            "1231231231231231231231231255555555555555555555.123",
            "1231231231231231231231231255555555555600000000",
        );

        // integer + fractional over precision
        assert_parse(
            "123123.5555555555555555555555555555555555555555",
            "123123.55555555555555555555555555555556",
        );

        parse_overflow("90071992547409929007199254740992900711212312312312312312312312312311111111111111111111111111111111111111111111111111111111111111111111111111111111111111111111111111111111111111111111111111111");
    }
