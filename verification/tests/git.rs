use std::path::PathBuf;

use mamediff::git::{is_available, parse_escaped_path, parse_maybe_escaped_path, EscapedPathError};

#[test]
fn parse_maybe_escaped_path_works() {
    assert_eq!(
        PathBuf::from(parse_maybe_escaped_path("foo.txt").unwrap()),
        PathBuf::from("foo.txt")
    );
    assert_eq!(
        PathBuf::from(
            parse_maybe_escaped_path(r#""\343\201\202\343\201\204\343\201\206.txt""#).unwrap()
        ),
        PathBuf::from("あいう.txt")
    );
    assert_eq!(
        PathBuf::from(
            parse_maybe_escaped_path(r#""\343\201\202\\t\343\201\204a\343\201\206.txt""#)
                .unwrap()
        ),
        PathBuf::from("あ\\tいaう.txt")
    );
}

#[test]
fn escaped_path_errors() {
    assert_eq!(parse_escaped_path("abc\\"), Err(EscapedPathError::UnexpectedEnd));
    assert_eq!(parse_escaped_path("abc\\12"), Err(EscapedPathError::UnexpectedEnd));
    assert_eq!(parse_escaped_path("\\400"), Err(EscapedPathError::InvalidOctal));
    assert_eq!(parse_escaped_path("\\181"), Err(EscapedPathError::InvalidOctal));
    assert_eq!(parse_escaped_path("\\343"), Err(EscapedPathError::InvalidUtf8));
    assert_eq!(parse_escaped_path("\\101\\\"b").unwrap(), "A\"b");
}

#[test]
fn quotes_are_stripped_on_both_sides() {
    assert_eq!(parse_maybe_escaped_path("\"\"a b\"\"").unwrap(), "a b");
    assert_eq!(parse_maybe_escaped_path("a\"b\"").unwrap(), "a\"b\"");
    assert_eq!(parse_maybe_escaped_path("\"\"").unwrap(), "");
}

#[test]
fn git_availability_from_output() {
    assert!(is_available(Some("true\n")));
    assert!(!is_available(Some("false\n")));
    assert!(!is_available(None));
}

#[test]
fn git_availability_trims_unicode_white_space() {
    assert!(is_available(Some("\u{3000}\ttrue\u{85}\r\n")));
    assert!(is_available(Some("\u{a0}true\u{2028}")));
    assert!(!is_available(Some("\u{200b}true")));
    assert!(!is_available(Some("tr ue")));
}

#[test]
fn escaped_paths_read_back() {
    assert_eq!(parse_escaped_path(r#"a\"b\\\303\251"#).unwrap(), "a\"b\\é");
    assert_eq!(parse_maybe_escaped_path(r#""a\"b\\\303\251""#).unwrap(), "a\"b\\é");
    assert_eq!(parse_maybe_escaped_path(r#""\343\201\202\t""#).unwrap(), "あt");
}

#[test]
fn quoted_path_ending_in_a_quote_loses_it() {
    assert_eq!(
        parse_maybe_escaped_path(r#""a\"""#),
        Err(EscapedPathError::UnexpectedEnd)
    );
}
