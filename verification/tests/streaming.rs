use scheme_strings::{
    decode_hex_escape, decode_mnemonic, parse_string_literal, parse_string_literal_complete,
    ErrorKind, ParseOutcome, Value,
};

#[test]
fn not_a_string_at_start() {
    let res = parse_string_literal("abc");
    assert!(matches!(
        res,
        ParseOutcome::Failed(ErrorKind::NotAString, 0)
    ));
}

#[test]
fn invalid_escape_reports_backslash_offset() {
    let res = parse_string_literal("\"ab\\p\"");
    assert!(matches!(
        res,
        ParseOutcome::Failed(ErrorKind::InvalidEscape, 3)
    ));
}

#[test]
fn surrogate_escape_fails_inside_literal() {
    let res = parse_string_literal("\"\\xDFFF\"");
    assert!(matches!(
        res,
        ParseOutcome::Failed(ErrorKind::InvalidCodepoint, 1)
    ));
}

#[test]
fn empty_input_is_incomplete() {
    assert!(matches!(
        parse_string_literal(""),
        ParseOutcome::Incomplete(_)
    ));
}

#[test]
fn missing_closing_quote_is_incomplete() {
    assert!(matches!(
        parse_string_literal("\"abc"),
        ParseOutcome::Incomplete(_)
    ));
}

#[test]
fn trailing_backslash_is_incomplete() {
    assert!(matches!(
        parse_string_literal("\"ab\\"),
        ParseOutcome::Incomplete(_)
    ));
}

#[test]
fn continuation_awaiting_line_ending_is_incomplete() {
    assert!(matches!(
        parse_string_literal("\"ab\\  "),
        ParseOutcome::Incomplete(_)
    ));
    assert!(matches!(
        parse_string_literal("\"ab\\ \r"),
        ParseOutcome::Incomplete(_)
    ));
    assert!(matches!(
        parse_string_literal("\"ab\\ \n "),
        ParseOutcome::Incomplete(_)
    ));
}

#[test]
fn hex_digits_still_accumulating_is_incomplete() {
    assert!(matches!(
        decode_hex_escape("\\x2"),
        ParseOutcome::Incomplete(_)
    ));
    assert!(matches!(decode_hex_escape("\\x"), ParseOutcome::Incomplete(_)));
    assert!(matches!(decode_hex_escape("\\"), ParseOutcome::Incomplete(_)));
}

#[test]
fn lone_backslash_mnemonic_is_incomplete() {
    assert!(matches!(decode_mnemonic("\\"), ParseOutcome::Incomplete(_)));
    assert!(matches!(decode_mnemonic(""), ParseOutcome::Incomplete(_)));
}

#[test]
fn unterminated_at_end_of_stream() {
    let res = parse_string_literal_complete("\"abc");
    assert!(matches!(
        res,
        ParseOutcome::Failed(ErrorKind::UnterminatedString, 4)
    ));
}

#[test]
fn complete_parse_passes_through() {
    match parse_string_literal_complete("\"abc\" rest") {
        ParseOutcome::Done(rem, v) => {
            assert_eq!(rem, " rest");
            assert_eq!(v, "abc");
        }
        _ => panic!("expected a decoded value"),
    }
}

#[test]
fn growing_input_never_regresses() {
    let lit = "\"ab\\x41 \\n\\\\ c\\   \n d\"";
    let mut seen_done = false;
    for i in 0..=lit.len() {
        if !lit.is_char_boundary(i) {
            continue;
        }
        match parse_string_literal(&lit[..i]) {
            ParseOutcome::Incomplete(_) => {
                assert!(!seen_done, "a decided parse regressed to incomplete");
            }
            ParseOutcome::Done(rem, v) => {
                assert!(i == lit.len(), "done before the closing quote arrived");
                assert_eq!(rem, "");
                assert_eq!(v, "abA \n\\ cd");
                seen_done = true;
            }
            ParseOutcome::Failed(_, _) => panic!("a valid literal must never fail"),
        }
    }
    assert!(seen_done);
}

#[test]
fn decoded_text_is_valid_scalar_text() {
    let inputs = ["\"\\x41\\x10FFFF\\xa\"", "\"plain\"", "\"\\\"\\\\\\t\""];
    for input in inputs {
        match parse_string_literal(input) {
            ParseOutcome::Done(_, v) => {
                for c in v.chars() {
                    let u = c as u32;
                    assert!(u <= 0x10FFFF && !(0xD800 <= u && u <= 0xDFFF));
                }
            }
            _ => panic!("expected a decoded value"),
        }
    }
}

#[test]
fn decoded_literal_feeds_the_value_shape() {
    match parse_string_literal("\"hi\"") {
        ParseOutcome::Done(_, v) => {
            let datum = Value::Str(v);
            match datum {
                Value::Str(text) => assert_eq!(text, "hi"),
                _ => panic!("expected a text datum"),
            }
        }
        _ => panic!("expected a decoded value"),
    }
}
