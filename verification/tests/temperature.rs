use onebrc::temperature::{
    fits_branchless, fits_digits, fits_fixed, parse_temperature, parse_temperature_branchless,
    parse_temperature_fixed,
};

#[test]
fn reads_positive_two_digit_temperature() {
    assert_eq!(parse_temperature(b"12.3"), 123);
    assert_eq!(parse_temperature_fixed(b"12.3"), 123);
    assert_eq!(parse_temperature_branchless(b"12.3"), 123);
}

#[test]
fn reads_negative_one_digit_temperature() {
    assert_eq!(parse_temperature(b"-5.0"), -50);
    assert_eq!(parse_temperature_fixed(b"-5.0"), -50);
    assert_eq!(parse_temperature_branchless(b"-5.0"), -50);
}

#[test]
fn reads_extreme_temperatures() {
    for (text, value) in [(&b"-99.9"[..], -999), (&b"99.9"[..], 999), (&b"0.0"[..], 0), (&b"-0.0"[..], 0)] {
        assert_eq!(parse_temperature(text), value);
        assert_eq!(parse_temperature_fixed(text), value);
        assert_eq!(parse_temperature_branchless(text), value as i16);
    }
}

#[test]
fn readers_agree_on_every_well_formed_temperature() {
    for tenths in -999i32..=999 {
        let text = format!("{}{}.{}", if tenths < 0 { "-" } else { "" }, tenths.abs() / 10, tenths.abs() % 10);
        let bytes = text.as_bytes();
        assert_eq!(parse_temperature(bytes), tenths, "{text}");
        assert_eq!(parse_temperature_fixed(bytes), tenths, "{text}");
        assert_eq!(parse_temperature_branchless(bytes) as i32, tenths, "{text}");
        assert!(fits_digits(bytes));
        assert!(fits_branchless(bytes));
    }
}

#[test]
fn byte_reader_takes_minus_anywhere() {
    assert_eq!(parse_temperature(b"1-2.3"), -123);
    assert_eq!(parse_temperature(b"123"), 123);
}

#[test]
fn fixed_reader_reads_by_position() {
    // the byte after the second digit is skipped whatever it is
    assert_eq!(parse_temperature_fixed(b"12x5"), 125);
    assert_eq!(parse_temperature_branchless(b"12x5"), 125);
}

#[test]
fn acceptance_checks() {
    assert!(!fits_branchless(b""));
    assert!(!fits_branchless(b"1."));
    assert!(!fits_branchless(b"-"));
    assert!(fits_branchless(b"1.5"));
    assert!(!fits_digits(b"1 5"));
    assert!(fits_digits(b"2147483647"));
    assert!(!fits_digits(b"2147483648"));
}

#[test]
fn fixed_layout_check() {
    assert!(fits_fixed(b"1.0"));
    assert!(fits_fixed(b"-12.5"));
    assert!(!fits_fixed(b"1"));
    assert!(!fits_fixed(b"-1."));
}
