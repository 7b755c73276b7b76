use decimal_rs::{
    eat_digits, eat_whitespaces, extract_exponent, extract_nan, extract_sign, from_str,
    parse_decimal, parse_str, Decimal, DecimalParseError, Sign,
};

fn parts(s: &str) -> (u128, i16, bool) {
    let d = from_str(s).unwrap();
    (d.int_val(), d.scale(), d.is_sign_negative())
}

#[test]
fn scenario_fraction() {
    assert_eq!(parts("128.128"), (128128, 3, false));
}

#[test]
fn scenario_negative_exponent() {
    assert_eq!(parts("-1e-10"), (1, 10, true));
}

#[test]
fn scenario_padded_exponent_renders_ten() {
    let d = from_str("00000000001e00000000001").unwrap();
    assert_eq!(d.to_string(), "10");
    assert_eq!(parts("00000000001e00000000001"), (1, -1, false));
}

#[test]
fn scenario_errors() {
    assert_eq!(from_str("1e1000"), Err(DecimalParseError::Overflow));
    assert_eq!(from_str(""), Err(DecimalParseError::Empty));
    assert_eq!(from_str("   "), Err(DecimalParseError::Empty));
    assert_eq!(from_str("-."), Err(DecimalParseError::Invalid));
}

#[test]
fn negative_zero_is_canonical() {
    for s in ["-0", "-0.0", "-0e5", "-000.000e-3"] {
        let d = from_str(s).unwrap();
        assert_eq!(d.int_val(), 0);
        assert!(!d.is_sign_negative());
        assert_eq!(d.to_string(), "0");
    }
}

#[test]
fn leading_and_trailing_zeros() {
    assert_eq!(from_str("0000123"), from_str("123"));
    assert_eq!(from_str("123.45000"), from_str("123.45"));
    assert_eq!(parts("123.45000"), (12345, 2, false));
}

#[test]
fn exponent_moves_the_point() {
    assert_eq!(from_str("1.23456000e3"), from_str("1234.56"));
    assert_eq!(parts("1234.56"), (123456, 2, false));
}

#[test]
fn precision_boundary() {
    let ok = "12345678901234567890123456789012345678";
    assert_eq!(ok.len(), 38);
    assert_eq!(parts(ok), (12345678901234567890123456789012345678, 0, false));
    let too_long = "123456789012345678901234567890123456789";
    assert_eq!(from_str(too_long), Err(DecimalParseError::Overflow));
    let frac = "0.12345678901234567890123456789012345678";
    assert_eq!(parts(frac), (12345678901234567890123456789012345678, 38, false));
    let frac_long = "0.123456789012345678901234567890123456789";
    assert_eq!(from_str(frac_long), Err(DecimalParseError::Overflow));
}

#[test]
fn scale_boundary() {
    assert_eq!(parts("1e-130"), (1, 130, false));
    assert_eq!(from_str("1e-131"), Err(DecimalParseError::Overflow));
    assert_eq!(parts("1e126"), (1, -126, false));
    assert_eq!(from_str("1e127"), Err(DecimalParseError::Overflow));
    assert_eq!(from_str("0.1e-130"), Err(DecimalParseError::Overflow));
    assert_eq!(parts("0.1e-129"), (1, 130, false));
    assert_eq!(from_str("1e0999"), Err(DecimalParseError::Overflow));
    assert_eq!(from_str("1e1000"), Err(DecimalParseError::Overflow));
}

#[test]
fn whitespace_around_is_accepted() {
    assert_eq!(from_str(" \t\n\r\x0c12.5 \t\n\r\x0c"), from_str("12.5"));
    assert_eq!(parts("  -7  "), (7, 0, true));
    assert_eq!(from_str("- 1"), Err(DecimalParseError::Invalid));
    assert_eq!(from_str("1 2"), Err(DecimalParseError::Invalid));
    assert_eq!(from_str("1. 5"), Err(DecimalParseError::Invalid));
    assert_eq!(from_str("\x0b1"), Err(DecimalParseError::Invalid));
}

#[test]
fn nan_is_rejected() {
    for s in ["nan", "NaN", "NAN", "  nAn  ", "nan1"] {
        assert_eq!(from_str(s), Err(DecimalParseError::Invalid));
    }
}

#[test]
fn round_trip_through_text() {
    let cases: [(&str, (u128, i16, bool)); 8] = [
        ("128.128", (128128, 3, false)),
        ("-1e-10", (1, 10, true)),
        ("1e10", (10000000000, 0, false)),
        ("-0.00123456", (123456, 8, true)),
        ("10e-1", (1, 0, false)),
        ("0e-5", (0, 0, false)),
        ("1.5e-3", (15, 4, false)),
        ("-12e2", (1200, 0, true)),
    ];
    for (s, expected) in cases {
        let d = from_str(s).unwrap();
        let text = d.to_string();
        assert_eq!(parts(&text), expected, "{}", s);
        let again = from_str(&text).unwrap();
        assert_eq!(from_str(&again.to_string()), Ok(again));
    }
}

#[test]
fn rendering() {
    assert_eq!(from_str("10e-1").unwrap().to_string(), "1.0");
    assert_eq!(from_str("-15e-5").unwrap().to_string(), "-0.00015");
    assert_eq!(from_str("0e-5").unwrap().to_string(), "0");
    assert_eq!(from_str("12e2").unwrap().to_bytes(), b"1200".to_vec());
}

#[test]
fn sign_stage() {
    let (sign, rest) = extract_sign(b"-12");
    assert_eq!(sign, Sign::Negative);
    assert_eq!(rest, b"12");
    let (sign, rest) = extract_sign(b"+12");
    assert_eq!(sign, Sign::Positive);
    assert_eq!(rest, b"12");
    let (sign, rest) = extract_sign(b"12");
    assert_eq!(sign, Sign::Positive);
    assert_eq!(rest, b"12");
}

#[test]
fn digit_and_whitespace_stages() {
    assert_eq!(eat_digits(b"0123x4"), (&b"0123"[..], &b"x4"[..]));
    assert_eq!(eat_digits(b"x"), (&b""[..], &b"x"[..]));
    assert_eq!(eat_whitespaces(b" \t1 "), &b"1 "[..]);
    assert_eq!(extract_nan(b"NaN5"), (true, &b"5"[..]));
    assert_eq!(extract_nan(b"na"), (false, &b"na"[..]));
}

#[test]
fn exponent_stage() {
    assert_eq!(extract_exponent(b"-0012x"), Ok((-12, &b"x"[..])));
    assert_eq!(extract_exponent(b"+"), Err(DecimalParseError::Invalid));
    assert_eq!(extract_exponent(b"1000"), Err(DecimalParseError::Overflow));
    assert_eq!(extract_exponent(b"127"), Err(DecimalParseError::Overflow));
    assert_eq!(extract_exponent(b"-130"), Ok((-130, &b""[..])));
    assert_eq!(extract_exponent(b"-131"), Err(DecimalParseError::Overflow));
}

#[test]
fn grammar_stage() {
    let (p, rest) = parse_decimal(b"-0012.3400e2 ").unwrap();
    assert_eq!(p.sign, Sign::Negative);
    assert_eq!(p.integral, b"12");
    assert_eq!(p.fractional, b"34");
    assert_eq!(p.exp, 2);
    assert_eq!(rest, b" ");
    let (p, _) = parse_decimal(b"000").unwrap();
    assert_eq!(p.integral, b"0");
    assert!(parse_decimal(b".e1").is_err());
    assert!(parse_decimal(b"+").is_err());
}

#[test]
fn value_stage() {
    let (d, rest) = parse_str(b"1.5x").unwrap();
    assert_eq!((d.int_val(), d.scale(), d.is_sign_negative()), (15, 1, false));
    assert_eq!(rest, b"x");
    let _: Decimal = d;
}

fn reading(s: &[u8]) -> Result<(bool, Vec<u8>, Vec<u8>, i16, Vec<u8>), DecimalParseError> {
    parse_decimal(s).map(|(p, rest)| {
        (p.sign == Sign::Negative, p.integral.to_vec(), p.fractional.to_vec(), p.exp, rest.to_vec())
    })
}

#[test]
fn grammar_drops_leading_zeros() {
    assert_eq!(reading(b"-000012.5e3x"), reading(b"-12.5e3x"));
    assert_eq!(reading(b"+0007"), reading(b"+7"));
    assert_eq!(reading(b"0000"), reading(b"0"));
    assert_eq!(reading(b"00e1000"), reading(b"0e1000"));
}

#[test]
fn grammar_drops_trailing_zeros() {
    assert_eq!(reading(b"1.2300e-2 "), reading(b"1.23e-2 "));
    assert_eq!(reading(b"-.500"), reading(b"-.5"));
    assert_eq!(reading(b"7.0"), reading(b"7."));
    assert_eq!(reading(b"1.20e"), reading(b"1.2e"));
}

#[test]
fn from_str_trait_agrees() {
    for s in ["", "  ", "nan", " NaN ", "1e1.1", "1 2", "12.50", "-1e-10", "1e127"] {
        assert_eq!(s.parse::<Decimal>(), from_str(s), "{}", s);
    }
}
