use rust_json_parse::parse;
use rust_json_parse::JsonError;
use rust_json_parse::JsonValue;
use rust_json_parse::ParseError;

fn parse_error(input: &[u8]) -> ParseError {
    match parse(input) {
        Err(JsonError::ParseError(e, _)) => e,
        other => panic!("expected a parse error, got {:?}", other),
    }
}

#[test]
fn truncated_array_is_unexpected_end_of_file() {
    assert_eq!(parse_error(b"["), ParseError::UnexpectedEndOfFile);
}

#[test]
fn empty_input_is_unexpected_end_of_file() {
    assert_eq!(parse_error(b""), ParseError::UnexpectedEndOfFile);
    assert_eq!(parse_error(b"   \n\t "), ParseError::UnexpectedEndOfFile);
}

#[test]
fn missing_object_value_is_expected_next_value() {
    assert_eq!(
        parse_error(b"{\"a\":}"),
        ParseError::ExpectedNextValue { found: Some('}') }
    );
}

#[test]
fn unterminated_string_is_unexpected_end_of_file() {
    assert_eq!(parse_error(b"\"abc"), ParseError::UnexpectedEndOfFile);
}

#[test]
fn truncated_literal_is_expected_next_value() {
    assert_eq!(
        parse_error(b"tru"),
        ParseError::ExpectedNextValue { found: Some('t') }
    );
    assert_eq!(
        parse_error(b"fals"),
        ParseError::ExpectedNextValue { found: Some('f') }
    );
}

#[test]
fn number_run_longer_than_buffer_is_invalid() {
    let long = "1".repeat(321);
    assert_eq!(parse_error(long.as_bytes()), ParseError::InvalidNumberLiteral);
    let edge = "1".repeat(320);
    assert_eq!(
        parse(edge.as_bytes()).unwrap(),
        JsonValue::Number(edge.as_bytes().to_vec())
    );
}

#[test]
fn malformed_number_literals_are_invalid() {
    assert_eq!(parse_error(b"-"), ParseError::InvalidNumberLiteral);
    assert_eq!(parse_error(b"1e"), ParseError::InvalidNumberLiteral);
    assert_eq!(parse_error(b"1.2.3"), ParseError::InvalidNumberLiteral);
    assert_eq!(parse_error(b"1e+"), ParseError::InvalidNumberLiteral);
}

#[test]
fn unknown_escape_is_invalid_string_escape() {
    assert_eq!(parse_error(b"\"\\x\""), ParseError::InvalidStringEscape);
}

#[test]
fn short_or_bad_hex_is_invalid_string_escape() {
    assert_eq!(parse_error(b"\"\\u00"), ParseError::InvalidStringEscape);
    assert_eq!(parse_error(b"\"\\u00zz\""), ParseError::InvalidStringEscape);
}

#[test]
fn unpaired_surrogate_is_invalid_string_escape() {
    assert_eq!(parse_error(b"\"\\uD800\""), ParseError::InvalidStringEscape);
    assert_eq!(parse_error(b"\"\\uDC00\""), ParseError::InvalidStringEscape);
    assert_eq!(
        parse_error(b"\"\\uD800\\u0041\""),
        ParseError::InvalidStringEscape
    );
}

#[test]
fn missing_colon_is_expected_colon() {
    assert_eq!(
        parse_error(b"{\"a\" 1}"),
        ParseError::ExpectedColon { found: Some('1') }
    );
}

#[test]
fn bad_array_separator_is_expected_end_of_array() {
    assert_eq!(
        parse_error(b"[1;2]"),
        ParseError::ExpectedEndOfArray { found: Some(';') }
    );
    assert_eq!(
        parse_error(b"[1"),
        ParseError::ExpectedEndOfArray { found: None }
    );
}

#[test]
fn bad_object_separator_is_expected_end_of_object() {
    assert_eq!(
        parse_error(b"{\"a\":1;}"),
        ParseError::ExpectedEndOfObject { found: Some(';') }
    );
}

#[test]
fn non_string_key_is_string_quote() {
    assert_eq!(
        parse_error(b"{5:1}"),
        ParseError::StringQuote { found: Some('5') }
    );
}

#[test]
fn raw_invalid_utf8_in_string_is_reported_lossily() {
    assert_eq!(
        parse_error(b"\"\xff\""),
        ParseError::InvalidUtf8 {
            string: "\u{FFFD}".to_string()
        }
    );
}

#[test]
fn file_too_long_is_rejected_before_parsing() {
    let len = 0x20000000usize;
    let input = vec![b'1'; len];
    match parse(&input) {
        Err(JsonError::FileTooLong { len: l }) => assert_eq!(l, len),
        other => panic!("expected FileTooLong, got {:?}", other),
    }
}

#[test]
fn error_carries_snippet_of_unconsumed_input() {
    match parse(b"[1 x] tail") {
        Err(JsonError::ParseError(e, snippet)) => {
            assert_eq!(e, ParseError::ExpectedEndOfArray { found: Some('x') });
            assert_eq!(snippet, "] tail");
        }
        other => panic!("expected a parse error, got {:?}", other),
    }
}

#[test]
fn long_snippet_is_truncated_with_ellipsis() {
    let mut input = Vec::new();
    input.push(b'x');
    input.extend(std::iter::repeat(b'y').take(600));
    match parse(&input) {
        Err(JsonError::ParseError(e, snippet)) => {
            assert_eq!(e, ParseError::ExpectedNextValue { found: Some('x') });
            let expected: String = std::iter::repeat('y')
                .take(500)
                .chain(std::iter::once('\u{2026}'))
                .collect();
            assert_eq!(snippet, expected);
        }
        other => panic!("expected a parse error, got {:?}", other),
    }
}
