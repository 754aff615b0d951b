use fuzzer::ast::Op;
use fuzzer::set_parser::{SetError, SetParser};

fn parse(s: &str) -> Result<Op, SetError> {
    SetParser::new().parse_set(s)
}

fn set(ranges: &[(char, char)]) -> Op {
    Op::CharSet(ranges.iter().map(|&(a, b)| Op::CharRange(a, b)).collect())
}

#[test]
fn test_parse_set_lowercase() {
    assert_eq!(parse("[a-z]").unwrap(), set(&[('a', 'z')]));
}

#[test]
fn test_parse_set_digits() {
    assert_eq!(parse("[0-9]").unwrap(), set(&[('0', '9')]));
}

#[test]
fn test_parse_set_two_ranges() {
    assert_eq!(parse("[a-zA-Z]").unwrap(), set(&[('a', 'z'), ('A', 'Z')]));
}

#[test]
fn test_parse_set_single_chars() {
    assert_eq!(parse("[ab]").unwrap(), set(&[('a', 'a'), ('b', 'b')]));
}

#[test]
fn test_parse_set_three_ranges() {
    assert_eq!(
        parse("[a-zA-Z0-9]").unwrap(),
        set(&[('a', 'z'), ('A', 'Z'), ('0', '9')])
    );
}

#[test]
fn test_parse_set_unicode_escapes() {
    assert_eq!(parse("[\\u0041-\\u005A]").unwrap(), set(&[('A', 'Z')]));
}

#[test]
fn test_parse_set_control_escapes() {
    assert_eq!(parse("[\\n\\t]").unwrap(), set(&[('\n', '\n'), ('\t', '\t')]));
}

#[test]
fn test_parse_set_mixed() {
    assert_eq!(
        parse("[A-Za-z_1]").unwrap(),
        set(&[('A', 'Z'), ('a', 'z'), ('_', '_'), ('1', '1')])
    );
}

#[test]
fn set_empty_is_legal() {
    assert_eq!(parse("[]").unwrap(), set(&[]));
}

#[test]
fn set_dangling_dash_is_an_error() {
    assert_eq!(parse("[-a]"), Err(SetError::DanglingDash));
    assert_eq!(parse("[a-z-]"), Err(SetError::DanglingDash));
}

#[test]
fn set_missing_range_end_is_an_error() {
    assert_eq!(parse("[a-"), Err(SetError::MissingRangeEnd));
}

#[test]
fn set_without_closing_bracket_is_an_error() {
    assert_eq!(parse("[abc"), Err(SetError::Unterminated));
    assert_eq!(parse("[a-]"), Err(SetError::Unterminated));
    assert_eq!(parse("["), Err(SetError::Unterminated));
}

#[test]
fn set_trailing_characters_are_an_error() {
    assert_eq!(parse("[a]b"), Err(SetError::TrailingCharacters));
}

#[test]
fn set_without_open_bracket_is_an_error() {
    assert_eq!(parse("a-z]"), Err(SetError::MissingOpenBracket));
    assert_eq!(parse(""), Err(SetError::MissingOpenBracket));
}

#[test]
fn set_unicode_escape_errors() {
    assert_eq!(parse("[\\u00G1]"), Err(SetError::InvalidHexDigit));
    assert_eq!(parse("[\\u00"), Err(SetError::IncompleteUnicodeEscape));
    assert_eq!(parse("[\\uD800]"), Err(SetError::InvalidCodePoint));
    assert_eq!(parse("[\\"), Err(SetError::IncompleteEscape));
}

#[test]
fn set_escaped_bracket_and_dash_are_literal() {
    assert_eq!(parse("[\\]\\-]").unwrap(), set(&[(']', ']'), ('-', '-')]));
    assert_eq!(parse("[\\r\\q]").unwrap(), set(&[('\r', '\r'), ('q', 'q')]));
}
