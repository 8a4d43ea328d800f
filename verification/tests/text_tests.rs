use macro_workshop::text::{decimal_text, parse_u64, text_less, IntParseError};

fn text(s: &str) -> Vec<char> {
    s.chars().collect()
}

#[test]
fn parses_plain_and_signed_numerals() {
    assert_eq!(parse_u64(&text("0")), Ok(0));
    assert_eq!(parse_u64(&text("42")), Ok(42));
    assert_eq!(parse_u64(&text("+7")), Ok(7));
    assert_eq!(parse_u64(&text("007")), Ok(7));
    assert_eq!(parse_u64(&text("18446744073709551615")), Ok(u64::MAX));
}

#[test]
fn parse_errors_agree_with_std() {
    let cases = ["", "+", "-", "-1", "1_000", "0x10", "5u64", "18446744073709551616", "99999999999999999999x", "é"];
    for c in cases {
        let expected = c.parse::<u64>().map_err(|e| format!("{}", e));
        let got = parse_u64(&text(c)).map_err(|e| match e {
            IntParseError::Empty => "cannot parse integer from empty string".to_string(),
            IntParseError::InvalidDigit => "invalid digit found in string".to_string(),
            IntParseError::PosOverflow => "number too large to fit in target type".to_string(),
        });
        assert_eq!(got, expected, "input {:?}", c);
    }
}

#[test]
fn each_parse_error_kind() {
    assert_eq!(parse_u64(&text("")), Err(IntParseError::Empty));
    assert_eq!(parse_u64(&text("+")), Err(IntParseError::InvalidDigit));
    assert_eq!(parse_u64(&text("1a")), Err(IntParseError::InvalidDigit));
    assert_eq!(parse_u64(&text("18446744073709551616")), Err(IntParseError::PosOverflow));
}

#[test]
fn decimal_text_matches_to_string() {
    for n in [0u64, 1, 9, 10, 99, 100, 12345, u64::MAX] {
        let t: String = decimal_text(n).into_iter().collect();
        assert_eq!(t, n.to_string());
    }
}

#[test]
fn decimal_text_parses_back() {
    for n in [0u64, 7, 10, 4096, u64::MAX - 1, u64::MAX] {
        assert_eq!(parse_u64(&decimal_text(n)), Ok(n));
    }
}

#[test]
fn text_order_is_that_of_strings() {
    let words = ["", "A", "B", "a", "ab", "abc", "b", "Zz", "é", "z"];
    for x in words {
        for y in words {
            assert_eq!(text_less(&text(x), &text(y)), x < y, "{:?} < {:?}", x, y);
        }
    }
}
