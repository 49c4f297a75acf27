use random_sampling::{parse_csv_string, parse_i32, ParseError};

#[test]
fn csv_simple_list() {
    assert_eq!(parse_csv_string("1,2,3"), Ok(vec![1, 2, 3]));
}

#[test]
fn csv_trims_whitespace_around_tokens() {
    assert_eq!(parse_csv_string(" 1 ,\t-2 , 3\r\n"), Ok(vec![1, -2, 3]));
}

#[test]
fn csv_trims_unicode_whitespace() {
    assert_eq!(
        parse_csv_string("\u{a0}1\u{a0},\u{2003}2 ,\u{3000}3\u{3000}"),
        Ok(vec![1, 2, 3])
    );
    assert_eq!(parse_csv_string("\u{85}4\u{1680}"), Ok(vec![4]));
    assert_eq!(parse_csv_string("\u{2028}5\u{202f}"), Ok(vec![5]));
    assert_eq!(parse_csv_string("\u{205f}\u{2009}6"), Ok(vec![6]));
    // the zero-width space is not a whitespace character
    assert_eq!(parse_csv_string("\u{200b}7"), Err(ParseError { index: 0 }));
}

#[test]
fn csv_single_token() {
    assert_eq!(parse_csv_string("42"), Ok(vec![42]));
    assert_eq!(parse_csv_string("  -7  "), Ok(vec![-7]));
    assert_eq!(parse_csv_string("+5"), Ok(vec![5]));
}

#[test]
fn csv_extreme_values() {
    assert_eq!(parse_csv_string("2147483647,-2147483648"), Ok(vec![i32::MAX, i32::MIN]));
    assert_eq!(parse_csv_string("2147483648"), Err(ParseError { index: 0 }));
    assert_eq!(parse_csv_string("-2147483649"), Err(ParseError { index: 0 }));
    assert_eq!(parse_csv_string("9999999999999999999999"), Err(ParseError { index: 0 }));
    assert_eq!(parse_csv_string("0000000000000000123"), Ok(vec![123]));
}

#[test]
fn csv_reports_first_bad_token() {
    assert_eq!(parse_csv_string("1,x,3"), Err(ParseError { index: 1 }));
    assert_eq!(parse_csv_string("a,b"), Err(ParseError { index: 0 }));
    assert_eq!(parse_csv_string("1,2,"), Err(ParseError { index: 2 }));
    assert_eq!(parse_csv_string("1,,2"), Err(ParseError { index: 1 }));
    assert_eq!(parse_csv_string("1,2 3,4"), Err(ParseError { index: 1 }));
    assert_eq!(parse_csv_string("1,+,3"), Err(ParseError { index: 1 }));
}

#[test]
fn csv_empty_string_is_one_bad_token() {
    assert_eq!(parse_csv_string(""), Err(ParseError { index: 0 }));
    assert_eq!(parse_csv_string("   "), Err(ParseError { index: 0 }));
}

#[test]
fn single_value_parsing() {
    assert_eq!(parse_i32("42"), Ok(42));
    assert_eq!(parse_i32("-17"), Ok(-17));
    assert_eq!(parse_i32("+7"), Ok(7));
    assert_eq!(parse_i32("0"), Ok(0));
    assert_eq!(parse_i32("2147483647"), Ok(i32::MAX));
    assert_eq!(parse_i32("-2147483648"), Ok(i32::MIN));
}

#[test]
fn single_value_rejects_malformed_input() {
    assert_eq!(parse_i32(""), Err(ParseError { index: 0 }));
    assert_eq!(parse_i32(" 42"), Err(ParseError { index: 0 }));
    assert_eq!(parse_i32("42 "), Err(ParseError { index: 0 }));
    assert_eq!(parse_i32("4x2"), Err(ParseError { index: 0 }));
    assert_eq!(parse_i32("-"), Err(ParseError { index: 0 }));
    assert_eq!(parse_i32("+"), Err(ParseError { index: 0 }));
    assert_eq!(parse_i32("12.5"), Err(ParseError { index: 0 }));
    assert_eq!(parse_i32("2147483648"), Err(ParseError { index: 0 }));
}
