use woolabels::text::{char_is_digit, chars_of, number_text, parse_u32};
use woolabels::Decimal;

#[test]
fn chars_of_gives_each_character() {
    assert_eq!(chars_of("5 €"), vec!['5', ' ', '€']);
    assert_eq!(chars_of(""), Vec::new());
}

#[test]
fn only_ascii_digits_are_digits() {
    for digit in "0123456789".chars() {
        assert!(char_is_digit(digit));
    }
    for other in "/:aA+-., ٣０".chars() {
        assert!(!char_is_digit(other));
    }
}

#[test]
fn parse_u32_reads_what_fits() {
    assert_eq!(parse_u32("0"), Some(0));
    assert_eq!(parse_u32("5358"), Some(5358));
    assert_eq!(parse_u32("+5358"), Some(5358));
    assert_eq!(parse_u32("0000"), Some(0));
    assert_eq!(parse_u32("4294967295"), Some(u32::MAX));
    assert_eq!(parse_u32("4294967296"), None);
    assert_eq!(parse_u32("42949672950"), None);
    assert_eq!(parse_u32(""), None);
    assert_eq!(parse_u32("+"), None);
    assert_eq!(parse_u32("++1"), None);
    assert_eq!(parse_u32("-0"), None);
    assert_eq!(parse_u32("12x"), None);
    assert_eq!(parse_u32("x12"), None);
}

#[test]
fn number_text_writes_decimal() {
    assert_eq!(number_text(0), "0");
    assert_eq!(number_text(7), "7");
    assert_eq!(number_text(10), "10");
    assert_eq!(number_text(105), "105");
    assert_eq!(number_text(usize::MAX), usize::MAX.to_string());
}

#[test]
fn decimal_from_chars_reads_like_parse() {
    let chars: Vec<char> = "-012.340".chars().collect();
    assert_eq!(Decimal::from_chars(&chars).unwrap().text(), "-12.34");
    let chars: Vec<char> = "12,34".chars().collect();
    assert!(Decimal::from_chars(&chars).is_none());
    assert!(Decimal::from_chars(&Vec::new()).is_none());
}

#[test]
fn decimal_text_is_read_back_as_the_same_number() {
    for text in ["0", "5", "-5", "0.5", "-0.05", "57.1", "1000000.000001", "40"] {
        let value = Decimal::parse(text).unwrap();
        assert_eq!(value.text(), text);
        assert_eq!(Decimal::parse(&value.text()).unwrap().text(), text);
    }
}
