use css_tokenizer::classify::{
    is_digit, is_hex_digit, is_identifier, is_identifier_start, is_letter, is_lowercase_ltter,
    is_newline, is_non_ascii, is_non_printable, is_uppercase_letter, is_valid_escape,
    is_whitespace, utf8_is_cont_byte, would_start_a_number, would_start_an_identifier,
};

#[test]
fn digits() {
    assert!(is_digit(b'0'));
    assert!(is_digit(b'9'));
    assert!(!is_digit(b'a'));
    assert!(!is_digit(b'/'));
    assert!(!is_digit(b':'));
}

#[test]
fn hex_digits() {
    assert!(is_hex_digit(b'0'));
    assert!(is_hex_digit(b'A'));
    assert!(is_hex_digit(b'F'));
    assert!(is_hex_digit(b'a'));
    assert!(is_hex_digit(b'f'));
    assert!(!is_hex_digit(b'G'));
    assert!(!is_hex_digit(b'g'));
}

#[test]
fn letters() {
    assert!(is_uppercase_letter(b'A'));
    assert!(!is_uppercase_letter(b'a'));
    assert!(is_lowercase_ltter(b'z'));
    assert!(!is_lowercase_ltter(b'Z'));
    assert!(is_letter(b'Q'));
    assert!(is_letter(b'q'));
    assert!(!is_letter(b'1'));
}

#[test]
fn non_ascii_bytes() {
    assert!(is_non_ascii(0x80));
    assert!(is_non_ascii(0xFF));
    assert!(!is_non_ascii(0x7F));
}

#[test]
fn identifier_bytes() {
    assert!(is_identifier_start(b'a'));
    assert!(is_identifier_start(b'_'));
    assert!(is_identifier_start(0xC3));
    assert!(!is_identifier_start(b'-'));
    assert!(!is_identifier_start(b'1'));
    assert!(is_identifier(b'-'));
    assert!(is_identifier(b'1'));
    assert!(!is_identifier(b' '));
}

#[test]
fn non_printable_bytes() {
    assert!(is_non_printable(0x00));
    assert!(is_non_printable(0x08));
    assert!(is_non_printable(0x0B));
    assert!(is_non_printable(0x0E));
    assert!(is_non_printable(0x1F));
    assert!(is_non_printable(0x7F));
    assert!(!is_non_printable(b' '));
    assert!(!is_non_printable(b'\n'));
}

#[test]
fn newlines_and_whitespace() {
    assert!(is_newline(b'\n'));
    assert!(is_newline(b'\r'));
    assert!(is_newline(0x0C));
    assert!(!is_newline(b'\t'));
    assert!(is_whitespace(b'\t'));
    assert!(is_whitespace(b' '));
    assert!(is_whitespace(b'\n'));
    assert!(!is_whitespace(b'a'));
}

#[test]
fn valid_escape_pairs() {
    assert!(is_valid_escape(b'\\', b'n'));
    assert!(is_valid_escape(b'\\', 0));
    assert!(!is_valid_escape(b'\\', b'\n'));
    assert!(!is_valid_escape(b'a', b'n'));
}

#[test]
fn identifier_lookahead() {
    assert!(would_start_an_identifier(b'a', 0, 0));
    assert!(would_start_an_identifier(b'-', b'-', 0));
    assert!(would_start_an_identifier(b'-', b'a', 0));
    assert!(would_start_an_identifier(b'-', b'\\', b'x'));
    assert!(!would_start_an_identifier(b'-', b'\\', b'\n'));
    assert!(would_start_an_identifier(b'\\', b'x', 0));
    assert!(!would_start_an_identifier(b'\\', b'\n', 0));
    assert!(!would_start_an_identifier(b'1', b'a', 0));
}

#[test]
fn number_lookahead() {
    assert!(would_start_a_number(b'5', 0, 0));
    assert!(would_start_a_number(b'+', b'5', 0));
    assert!(would_start_a_number(b'-', b'.', b'5'));
    assert!(would_start_a_number(b'.', b'5', 0));
    assert!(!would_start_a_number(b'.', b'.', b'5'));
    assert!(!would_start_a_number(b'+', b'a', 0));
    assert!(!would_start_a_number(b'a', b'5', 0));
}

#[test]
fn continuation_bytes() {
    assert!(utf8_is_cont_byte(0x80));
    assert!(utf8_is_cont_byte(0xBF));
    assert!(!utf8_is_cont_byte(0x7F));
    assert!(!utf8_is_cont_byte(0xC0));
}
