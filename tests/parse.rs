use decimal_rs::{Decimal, DecimalParseError};

fn assert_parse_empty<S: AsRef<str>>(s: S) {
    let result = s.as_ref().parse::<Decimal>();
    assert_eq!(result.unwrap_err(), DecimalParseError::Empty);
}

fn assert_parse_invalid<S: AsRef<str>>(s: S) {
    let result = s.as_ref().parse::<Decimal>();
    assert_eq!(result.unwrap_err(), DecimalParseError::Invalid);
}

fn assert_parse_overflow<S: AsRef<str>>(s: S) {
    let result = s.as_ref().parse::<Decimal>();
    assert_eq!(result.unwrap_err(), DecimalParseError::Overflow);
}

#[test]
fn test_parse_error() {
    assert_parse_empty("");
    assert_parse_empty("   ");
    assert_parse_invalid("-");
    assert_parse_invalid("   -   ");
    assert_parse_invalid("-.");
    assert_parse_invalid("- 1");
    assert_parse_invalid("-NaN");
    assert_parse_invalid("NaN.");
    assert_parse_invalid("NaN1");
    assert_parse_invalid("   NaN   .   ");
    assert_parse_invalid("   NaN   1   ");
    assert_parse_invalid(".");
    assert_parse_invalid("   .   ");
    assert_parse_invalid("e");
    assert_parse_invalid("   e   ");
    assert_parse_invalid("-e");
    assert_parse_invalid("-1e");
    assert_parse_invalid("1e1.1");
    assert_parse_invalid("-1 e1");
    assert_parse_invalid("   x   ");
    assert_parse_overflow("1e1000");
    assert_parse_overflow("1e127");
    assert_parse_overflow("1e-131");
}

fn assert_parse<S: AsRef<str>, V: AsRef<str>>(s: S, expected: V) {
    let decimal = s.as_ref().parse::<Decimal>().unwrap();
    assert_eq!(decimal.to_string(), expected.as_ref());
}

#[test]
fn test_parse_valid() {
    // Integer
    assert_parse("0", "0");
    assert_parse("-0", "0");
    assert_parse("   -0   ", "0");
    assert_parse("00000.", "0");
    assert_parse("-00000.", "0");
    assert_parse("128", "128");
    assert_parse("-128", "-128");
    assert_parse("65536", "65536");
    assert_parse("-65536", "-65536");
    assert_parse("4294967296", "4294967296");
    assert_parse("-4294967296", "-4294967296");
    assert_parse("18446744073709551616", "18446744073709551616");
    assert_parse("-18446744073709551616", "-18446744073709551616");
    assert_parse(
        "99999999999999999999999999999999999999",
        "99999999999999999999999999999999999999",
    );
    assert_parse(
        "-99999999999999999999999999999999999999",
        "-99999999999999999999999999999999999999",
    );
    assert_parse("000000000123", "123");
    assert_parse("-000000000123", "-123");

    // Floating-point number
    assert_parse("0.0", "0");
    assert_parse("-0.0", "0");
    assert_parse("   -0.0   ", "0");
    assert_parse(".0", "0");
    assert_parse(".00000", "0");
    assert_parse("-.0", "0");
    assert_parse("-.00000", "0");
    assert_parse("128.128", "128.128");
    assert_parse("-128.128", "-128.128");
    assert_parse("65536.65536", "65536.65536");
    assert_parse("-65536.65536", "-65536.65536");
    assert_parse("4294967296.4294967296", "4294967296.4294967296");
    assert_parse("-4294967296.4294967296", "-4294967296.4294967296");
    assert_parse(
        "9999999999999999999.9999999999999999999",
        "9999999999999999999.9999999999999999999",
    );
    assert_parse(
        "-9999999999999999999.9999999999999999999",
        "-9999999999999999999.9999999999999999999",
    );
    assert_parse("000000000123.000000000123", "123.000000000123");
    assert_parse("-000000000123.000000000123", "-123.000000000123");

    // Scientific notation
    assert_parse("0e0", "0");
    assert_parse("-0E-0", "0");
    assert_parse("0000000000E0000000000", "0");
    assert_parse("-0000000000E-0000000000", "0");
    assert_parse("00000000001e0000000000", "1");
    assert_parse("-00000000001e-0000000000", "-1");
    assert_parse("00000000001e00000000001", "10");
    assert_parse("-00000000001e-00000000001", "-0.1");
    assert_parse("1e10", "10000000000");
    assert_parse("-1e-10", "-0.0000000001");
    assert_parse("0000001.23456000e3", "1234.56");
    assert_parse("-0000001.23456000E-3", "-0.00123456");
}
