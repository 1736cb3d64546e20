use scheme_strings::{
    decode_hex_escape, decode_mnemonic, parse_fragment, parse_string_literal, ErrorKind,
    ParseOutcome,
};

fn expect_done_string(r: ParseOutcome<String>, rest: &str, value: &str) {
    match r {
        ParseOutcome::Done(rem, v) => {
            assert_eq!(rem, rest);
            assert_eq!(v, value);
        }
        _ => panic!("expected a decoded value"),
    }
}

fn expect_done_char(r: ParseOutcome<char>, rest: &str, value: char) {
    match r {
        ParseOutcome::Done(rem, c) => {
            assert_eq!(rem, rest);
            assert_eq!(c, value);
        }
        _ => panic!("expected a decoded character"),
    }
}

#[test]
fn empty_string() {
    expect_done_string(parse_string_literal("\"\""), "", "");
}

#[test]
fn raw_string() {
    expect_done_string(parse_string_literal("\"abc\""), "", "abc");
}

#[test]
fn raw_string_element() {
    expect_done_string(parse_fragment("abc\""), "\"", "abc");
}

#[test]
fn inline_hex_escape_valid() {
    expect_done_char(decode_hex_escape("\\x20!"), "!", ' ');
}

#[test]
fn inline_hex_escape_invalid() {
    let res = decode_hex_escape("\\xd800!");
    assert!(matches!(
        res,
        ParseOutcome::Failed(ErrorKind::InvalidCodepoint, 0)
    ));
}

#[test]
fn strip_inline_whitespace() {
    let str = "\"blah blah\\   \n    blah blah\"";
    expect_done_string(parse_string_literal(str), "", "blah blahblah blah");
}

#[test]
fn test_mnemonic_alert() {
    expect_done_char(decode_mnemonic("\\a"), "", '\u{0007}');
}

#[test]
fn test_mnemonic_bell() {
    expect_done_char(decode_mnemonic("\\b"), "", '\u{0008}');
}

#[test]
fn test_mnemonic_tab() {
    expect_done_char(decode_mnemonic("\\t"), "", '\t');
}

#[test]
fn test_mnemonic_newline() {
    expect_done_char(decode_mnemonic("\\n"), "", '\n');
}

#[test]
fn test_mnemonic_carriage_return() {
    expect_done_char(decode_mnemonic("\\r"), "", '\r');
}

#[test]
fn test_mnemonic_invalid() {
    let res = decode_mnemonic("\\p");
    assert!(matches!(
        res,
        ParseOutcome::Failed(ErrorKind::UnknownEscape('p'), 0)
    ));
}

#[test]
fn mnemonic_outside_table_is_unknown() {
    let res = decode_mnemonic("\\x");
    assert!(matches!(
        res,
        ParseOutcome::Failed(ErrorKind::UnknownEscape('x'), 0)
    ));
}

#[test]
fn escaped_quote_and_backslash() {
    expect_done_string(parse_string_literal("\"a\\\"b\\\\c\""), "", "a\"b\\c");
}

#[test]
fn mnemonic_escapes_inside_literal() {
    expect_done_string(
        parse_string_literal("\"a\\tb\\nc\\rd\\ae\\bf\""),
        "",
        "a\tb\nc\rd\u{0007}e\u{0008}f",
    );
}

#[test]
fn hex_escape_inside_literal() {
    expect_done_string(parse_string_literal("\"\\x41Z\""), "", "AZ");
}

#[test]
fn hex_escape_stops_after_eight_digits() {
    expect_done_char(decode_hex_escape("\\x00000041!"), "!", 'A');
    expect_done_char(decode_hex_escape("\\x000000411"), "1", 'A');
}

#[test]
fn hex_escape_above_max_codepoint() {
    let res = decode_hex_escape("\\x110000!");
    assert!(matches!(
        res,
        ParseOutcome::Failed(ErrorKind::InvalidCodepoint, 0)
    ));
}

#[test]
fn hex_escape_without_digits() {
    let res = decode_hex_escape("\\xg");
    assert!(matches!(
        res,
        ParseOutcome::Failed(ErrorKind::InvalidEscape, 0)
    ));
}

#[test]
fn continuation_with_crlf() {
    expect_done_string(parse_string_literal("\"ab\\ \t\r\n  cd\""), "", "abcd");
}

#[test]
fn continuation_without_inner_whitespace() {
    expect_done_string(parse_string_literal("\"\\\n\""), "", "");
}

#[test]
fn continuation_with_bare_carriage_return_fails() {
    let res = parse_string_literal("\"ab\\ \rx\"");
    assert!(matches!(
        res,
        ParseOutcome::Failed(ErrorKind::InvalidEscape, 3)
    ));
}

#[test]
fn fragment_of_single_escape() {
    expect_done_string(parse_fragment("\\n rest"), " rest", "\n");
}

#[test]
fn fragment_never_starts_at_quote() {
    let res = parse_fragment("\"abc\"");
    assert!(matches!(
        res,
        ParseOutcome::Failed(ErrorKind::InvalidEscape, 0)
    ));
}

#[test]
fn fragment_run_at_end_of_input_is_incomplete() {
    let res = parse_fragment("abc");
    assert!(matches!(res, ParseOutcome::Incomplete(_)));
}
