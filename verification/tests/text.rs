use rsync_chunks::text::{
    decimal_chars, hex_chars, int_error_string, parse_i64_str, unsigned_decimal_chars, IntErrorKind,
};

fn s(v: Vec<char>) -> String {
    v.into_iter().collect()
}

#[test]
fn parse_i64_reads_decimal_integers() {
    assert_eq!(parse_i64_str("123"), Ok(123));
    assert_eq!(parse_i64_str("-5"), Ok(-5));
    assert_eq!(parse_i64_str("+7"), Ok(7));
    assert_eq!(parse_i64_str("0"), Ok(0));
    assert_eq!(parse_i64_str("9223372036854775807"), Ok(i64::MAX));
    assert_eq!(parse_i64_str("-9223372036854775808"), Ok(i64::MIN));
}

#[test]
fn parse_i64_refuses_as_std_does() {
    for (input, kind) in [
        ("", IntErrorKind::Empty),
        ("-", IntErrorKind::InvalidDigit),
        ("+", IntErrorKind::InvalidDigit),
        ("12a", IntErrorKind::InvalidDigit),
        (" 1", IntErrorKind::InvalidDigit),
        ("9223372036854775808", IntErrorKind::PosOverflow),
        ("-9223372036854775809", IntErrorKind::NegOverflow),
    ] {
        assert_eq!(parse_i64_str(input), Err(kind), "{:?}", input);
        let std_err = input.parse::<i64>().unwrap_err();
        assert_eq!(int_error_string(kind), std_err.to_string());
    }
}

#[test]
fn decimal_text_reads_back() {
    for v in [0i64, 7, -7, 1677464923, i64::MAX, i64::MIN] {
        let t = s(decimal_chars(v));
        assert_eq!(t, v.to_string());
        assert_eq!(parse_i64_str(&t), Ok(v));
    }
    assert_eq!(s(unsigned_decimal_chars(u64::MAX)), u64::MAX.to_string());
}

#[test]
fn hex_chars_are_lower_case_pairs() {
    assert_eq!(s(hex_chars(&[0x00, 0x0f, 0xab, 0xff])), "000fabff");
    assert_eq!(s(hex_chars(&[])), "");
}
