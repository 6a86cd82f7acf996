use passgen::{parse_charset_spec, PasswordError};

fn compile(s: &str) -> Result<Vec<u8>, PasswordError> {
    parse_charset_spec(&s.to_string())
}

fn printable() -> Vec<u8> {
    (0x20u8..=0x7e).collect()
}

#[test]
fn range_is_inclusive_on_both_ends() {
    assert_eq!(compile("a-d").unwrap(), vec![b'a', b'b', b'c', b'd']);
}

#[test]
fn single_character_range_is_the_character() {
    assert_eq!(compile("a-a").unwrap(), compile("a").unwrap());
    assert_eq!(compile("a-a").unwrap(), vec![b'a']);
}

#[test]
fn reversed_range_adds_only_its_start() {
    assert_eq!(compile("d-a").unwrap(), vec![b'd']);
}

#[test]
fn range_starts_at_the_latest_character() {
    assert_eq!(compile("xb-d").unwrap(), vec![b'b', b'c', b'd', b'x']);
}

#[test]
fn output_is_ascending_and_deduplicated() {
    assert_eq!(compile("cbaabc").unwrap(), vec![b'a', b'b', b'c']);
    assert_eq!(compile("0-9a-c5").unwrap(), b"0123456789abc".to_vec());
}

#[test]
fn escaped_hyphen_and_backslash() {
    assert_eq!(compile("\\-\\\\").unwrap(), vec![b'-', b'\\']);
}

#[test]
fn range_may_end_in_an_escape() {
    assert_eq!(compile("!-\\-").unwrap(), (0x21u8..=0x2d).collect::<Vec<u8>>());
}

#[test]
fn caret_after_the_start_is_literal() {
    assert_eq!(compile("a^").unwrap(), vec![b'^', b'a']);
}

#[test]
fn compiling_twice_gives_the_same_charset() {
    assert_eq!(compile("z-a0-9\\-x").unwrap(), compile("z-a0-9\\-x").unwrap());
}

#[test]
fn inversion_complements_within_printable_ascii() {
    let plain = compile("a-z").unwrap();
    let inverted = compile("^a-z").unwrap();
    let expected: Vec<u8> = printable().into_iter().filter(|b| !plain.contains(b)).collect();
    assert_eq!(inverted, expected);
    assert_eq!(inverted.len(), 95 - 26);
}

#[test]
fn caret_alone_is_all_printable_ascii() {
    assert_eq!(compile("^").unwrap(), printable());
}

#[test]
fn rejects_empty_specification() {
    assert!(matches!(compile(""), Err(PasswordError::EmptySpec)));
}

#[test]
fn rejects_leading_hyphen() {
    assert!(matches!(compile("-x"), Err(PasswordError::UnescapedHyphen)));
}

#[test]
fn rejects_hyphen_after_range() {
    assert!(matches!(compile("a--"), Err(PasswordError::UnescapedHyphen)));
}

#[test]
fn rejects_invalid_escape() {
    assert!(matches!(compile("\\x"), Err(PasswordError::InvalidEscape(b'x'))));
    assert!(matches!(compile("a-\\n"), Err(PasswordError::InvalidEscape(b'n'))));
}

#[test]
fn rejects_unterminated_range() {
    assert!(matches!(compile("a-"), Err(PasswordError::UnterminatedRange)));
}

#[test]
fn rejects_unterminated_escape() {
    assert!(matches!(compile("a\\"), Err(PasswordError::UnterminatedEscape)));
    assert!(matches!(compile("a-\\"), Err(PasswordError::UnterminatedEscape)));
}

#[test]
fn rejects_control_and_non_ascii_bytes() {
    assert!(matches!(compile("a\u{1}"), Err(PasswordError::Untypeable)));
    assert!(matches!(compile("a\u{7f}"), Err(PasswordError::Untypeable)));
    assert!(matches!(compile("a\u{e9}"), Err(PasswordError::Untypeable)));
    assert!(matches!(compile("\t"), Err(PasswordError::Untypeable)));
}

#[test]
fn first_error_wins() {
    assert!(matches!(compile("-\u{1}"), Err(PasswordError::UnescapedHyphen)));
    assert!(matches!(compile("\u{1}-"), Err(PasswordError::Untypeable)));
}

#[test]
fn rejects_inverting_everything() {
    assert!(matches!(compile("^ -~"), Err(PasswordError::EmptyCharset)));
}
